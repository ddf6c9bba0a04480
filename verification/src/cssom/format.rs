//! How the parts of a stylesheet are written out as text.

use vstd::prelude::*;
use vstd::string::StringExecFns;
use crate::cssom::Color;
use crate::cssom::Declaration;
use crate::cssom::DeclarationProperty;
use crate::cssom::DeclarationValue;
use crate::cssom::DeclarationView;
use crate::cssom::Display;
use crate::cssom::Length;
use crate::cssom::LengthView;
use crate::cssom::PropertyView;
use crate::cssom::Rule;
use crate::cssom::RuleView;
use crate::cssom::Selector;
use crate::cssom::SelectorView;
use crate::cssom::StyleSheet;
use crate::cssom::Unit;
use crate::cssom::ValueView;
use crate::dom::tag_text;

verus! {

/// The character that writes a digit.
pub open spec fn digit_char(d: nat) -> char {
    if d == 0 {
        '0'
    } else if d == 1 {
        '1'
    } else if d == 2 {
        '2'
    } else if d == 3 {
        '3'
    } else if d == 4 {
        '4'
    } else if d == 5 {
        '5'
    } else if d == 6 {
        '6'
    } else if d == 7 {
        '7'
    } else if d == 8 {
        '8'
    } else {
        '9'
    }
}

/// The character that writes a hexadecimal digit, in lower case.
pub open spec fn hex_char(d: nat) -> char {
    if d < 10 {
        digit_char(d)
    } else if d == 10 {
        'a'
    } else if d == 11 {
        'b'
    } else if d == 12 {
        'c'
    } else if d == 13 {
        'd'
    } else if d == 14 {
        'e'
    } else {
        'f'
    }
}

/// The two hexadecimal digits that write the last eight bits of a number.
pub open spec fn hex_pair(n: nat) -> Seq<char> {
    seq![hex_char(n / 16 % 16), hex_char(n % 16)]
}

/// The name of a unit, as it is written after a number.
pub open spec fn unit_text(unit: Unit) -> Seq<char> {
    match unit {
        Unit::Em => "em"@,
        Unit::Ex => "ex"@,
        Unit::Ch => "ch"@,
        Unit::Rem => "rem"@,
        Unit::Vh => "vh"@,
        Unit::Vw => "vw"@,
        Unit::Vmin => "vmin"@,
        Unit::Vmax => "vmax"@,
        Unit::Px => "px"@,
        Unit::Mm => "mm"@,
        Unit::Q => "q"@,
        Unit::Cm => "cm"@,
        Unit::In => "in"@,
        Unit::Pt => "pt"@,
        Unit::Pc => "pc"@,
        Unit::Pct => "pct"@,
    }
}

/// The keyword of a layout.
pub open spec fn display_text(display: Display) -> Seq<char> {
    match display {
        Display::Hidden => "none"@,
        Display::Block => "block"@,
        Display::Inline => "inline"@,
        Display::InlineBlock => "inline-block"@,
        Display::Flex => "flex"@,
    }
}

/// The name of a property, as it is written before the colon; a property
/// that is not known is written as its name.
pub open spec fn property_text(property: PropertyView) -> Seq<char> {
    match property {
        PropertyView::Margin => "margin"@,
        PropertyView::MarginLeft => "margin-left"@,
        PropertyView::MarginRight => "margin-right"@,
        PropertyView::MarginTop => "margin-top"@,
        PropertyView::MarginBottom => "margin-bottom"@,
        PropertyView::Padding => "padding"@,
        PropertyView::PaddingLeft => "padding-left"@,
        PropertyView::PaddingRight => "padding-right"@,
        PropertyView::PaddingTop => "padding-top"@,
        PropertyView::PaddingBottom => "padding-bottom"@,
        PropertyView::Width => "width"@,
        PropertyView::Height => "height"@,
        PropertyView::Display => "display"@,
        PropertyView::Color => "color"@,
        PropertyView::BackgroundColor => "background-color"@,
        PropertyView::BorderRadius => "border-radius"@,
        PropertyView::Other(name) => name,
    }
}

/// A colour as text: `#` and two hexadecimal digits for each of its four
/// channels, red first and alpha last.
pub open spec fn color_text(color: Color) -> Seq<char> {
    "#"@ + hex_pair(color.r as nat) + hex_pair(color.g as nat) + hex_pair(color.b as nat)
        + hex_pair(color.a as nat)
}

/// A length as text: the number and right after it the unit, or the word
/// `auto`.
pub open spec fn length_text(length: LengthView) -> Seq<char> {
    match length {
        LengthView::Actual(number, unit) => number + unit_text(unit),
        LengthView::Auto => "auto"@,
    }
}

/// A value as text, as it is written after the colon.
pub open spec fn value_text(value: ValueView) -> Seq<char> {
    match value {
        ValueView::Color(color) => color_text(color),
        ValueView::Length(length) => length_text(length),
        ValueView::Display(display) => display_text(display),
        ValueView::Other(text) => text,
    }
}

/// A declaration as text: the property, a colon, the value and a
/// semicolon.
pub open spec fn declaration_text(declaration: DeclarationView) -> Seq<char> {
    property_text(declaration.property) + ": "@ + value_text(declaration.value) + ";"@
}

/// A selector as text, as it is written in a stylesheet: a class after a
/// `.`, an id after a `#`, each behind the selector that it stands on, and
/// a combinator between its two sides with a space on either side.
pub open spec fn selector_text(selector: SelectorView) -> Seq<char>
    decreases selector,
{
    match selector {
        SelectorView::Tag(tag) => tag_text(tag),
        SelectorView::Class(None, class) => "."@ + class,
        SelectorView::Class(Some(left), class) => selector_text(*left) + "."@ + class,
        SelectorView::Id(None, id) => "#"@ + id,
        SelectorView::Id(Some(left), id) => selector_text(*left) + "#"@ + id,
        SelectorView::Child(left, right) => selector_text(*left) + " > "@ + selector_text(*right),
        SelectorView::Adjacent(left, right) => selector_text(*left) + " + "@ + selector_text(
            *right,
        ),
    }
}

/// The first `n` of `selectors` as text, with a comma and a space between
/// them.
pub open spec fn selector_list_text(selectors: Seq<SelectorView>, n: int) -> Seq<char>
    decreases n,
{
    if n <= 0 {
        Seq::empty()
    } else if n == 1 {
        selector_text(selectors[0])
    } else {
        selector_list_text(selectors, n - 1) + ", "@ + selector_text(selectors[n - 1])
    }
}

/// The first `n` of `declarations` as text, each on a line of its own
/// after a tab.
pub open spec fn declaration_lines_text(declarations: Seq<DeclarationView>, n: int) -> Seq<char>
    decreases n,
{
    if n <= 0 {
        Seq::empty()
    } else {
        declaration_lines_text(declarations, n - 1) + "\t"@ + declaration_text(
            declarations[n - 1],
        ) + "\n"@
    }
}

/// A rule as text: its selectors, and between braces its declarations.
pub open spec fn rule_text(rule: RuleView) -> Seq<char> {
    selector_list_text(rule.selectors, rule.selectors.len() as int) + " {\n"@
        + declaration_lines_text(rule.declarations, rule.declarations.len() as int) + "}"@
}

/// The first `n` of `rules` as text, with an empty line between them. A
/// rule is set off from what stands before it only where something does.
pub open spec fn rules_text(rules: Seq<RuleView>, n: int) -> Seq<char>
    decreases n,
{
    if n <= 0 {
        Seq::empty()
    } else {
        let before = rules_text(rules, n - 1);
        if before.len() == 0 {
            rule_text(rules[n - 1])
        } else {
            before + "\n\n"@ + rule_text(rules[n - 1])
        }
    }
}

/// The digit of a number below ten.
fn digit_of(d: usize) -> (c: char)
    requires
        d < 10,
    ensures
        c == digit_char(d as nat),
{
    if d == 0 {
        '0'
    } else if d == 1 {
        '1'
    } else if d == 2 {
        '2'
    } else if d == 3 {
        '3'
    } else if d == 4 {
        '4'
    } else if d == 5 {
        '5'
    } else if d == 6 {
        '6'
    } else if d == 7 {
        '7'
    } else if d == 8 {
        '8'
    } else {
        '9'
    }
}

/// The hexadecimal digit of a number below sixteen.
fn hex_of(d: usize) -> (c: char)
    requires
        d < 16,
    ensures
        c == hex_char(d as nat),
{
    if d < 10 {
        digit_of(d)
    } else if d == 10 {
        'a'
    } else if d == 11 {
        'b'
    } else if d == 12 {
        'c'
    } else if d == 13 {
        'd'
    } else if d == 14 {
        'e'
    } else {
        'f'
    }
}

impl Unit {
    /// The name of the unit.
    pub fn to_string(&self) -> (text: String)
        ensures
            text@ == unit_text(*self),
    {
        match self {
            Unit::Em => "em".to_owned(),
            Unit::Ex => "ex".to_owned(),
            Unit::Ch => "ch".to_owned(),
            Unit::Rem => "rem".to_owned(),
            Unit::Vh => "vh".to_owned(),
            Unit::Vw => "vw".to_owned(),
            Unit::Vmin => "vmin".to_owned(),
            Unit::Vmax => "vmax".to_owned(),
            Unit::Px => "px".to_owned(),
            Unit::Mm => "mm".to_owned(),
            Unit::Q => "q".to_owned(),
            Unit::Cm => "cm".to_owned(),
            Unit::In => "in".to_owned(),
            Unit::Pt => "pt".to_owned(),
            Unit::Pc => "pc".to_owned(),
            Unit::Pct => "pct".to_owned(),
        }
    }
}

impl Display {
    /// The name of the layout.
    pub fn to_string(&self) -> (text: String)
        ensures
            text@ == display_text(*self),
    {
        match self {
            Display::Hidden => "none".to_owned(),
            Display::Block => "block".to_owned(),
            Display::Inline => "inline".to_owned(),
            Display::InlineBlock => "inline-block".to_owned(),
            Display::Flex => "flex".to_owned(),
        }
    }
}

impl DeclarationProperty {
    /// The name of the property.
    pub fn to_string(&self) -> (text: String)
        ensures
            text@ == property_text(self@),
    {
        match self {
            DeclarationProperty::Margin => "margin".to_owned(),
            DeclarationProperty::MarginLeft => "margin-left".to_owned(),
            DeclarationProperty::MarginRight => "margin-right".to_owned(),
            DeclarationProperty::MarginTop => "margin-top".to_owned(),
            DeclarationProperty::MarginBottom => "margin-bottom".to_owned(),
            DeclarationProperty::Padding => "padding".to_owned(),
            DeclarationProperty::PaddingLeft => "padding-left".to_owned(),
            DeclarationProperty::PaddingRight => "padding-right".to_owned(),
            DeclarationProperty::PaddingTop => "padding-top".to_owned(),
            DeclarationProperty::PaddingBottom => "padding-bottom".to_owned(),
            DeclarationProperty::Width => "width".to_owned(),
            DeclarationProperty::Height => "height".to_owned(),
            DeclarationProperty::Display => "display".to_owned(),
            DeclarationProperty::Color => "color".to_owned(),
            DeclarationProperty::BackgroundColor => "background-color".to_owned(),
            DeclarationProperty::BorderRadius => "border-radius".to_owned(),
            DeclarationProperty::Other(name) => name.clone(),
        }
    }
}

impl Color {
    /// The colour as text.
    pub fn to_string(&self) -> (text: String)
        ensures
            text@ == color_text(*self),
    {
        let mut text = "#".to_owned();
        text.push(hex_of(self.r / 16 % 16));
        text.push(hex_of(self.r % 16));
        text.push(hex_of(self.g / 16 % 16));
        text.push(hex_of(self.g % 16));
        text.push(hex_of(self.b / 16 % 16));
        text.push(hex_of(self.b % 16));
        text.push(hex_of(self.a / 16 % 16));
        text.push(hex_of(self.a % 16));
        proof {
            assert(text@ =~= color_text(*self));
        }
        text
    }
}

impl Length {
    /// The length as text.
    pub fn to_string(&self) -> (text: String)
        ensures
            text@ == length_text(self@),
    {
        match self {
            Length::Actual(number, unit) => {
                let mut text = number.as_str().to_owned();
                text.append(unit.to_string().as_str());
                text
            },
            Length::Auto => "auto".to_owned(),
        }
    }
}

impl DeclarationValue {
    /// The value as text.
    pub fn to_string(&self) -> (text: String)
        ensures
            text@ == value_text(self@),
    {
        match self {
            DeclarationValue::Color(color) => color.to_string(),
            DeclarationValue::Length(length) => length.to_string(),
            DeclarationValue::Display(display) => display.to_string(),
            DeclarationValue::Other(other) => other.clone(),
        }
    }
}

impl Declaration {
    /// The declaration as text.
    pub fn to_string(&self) -> (text: String)
        ensures
            text@ == declaration_text(self@),
    {
        let mut text = self.property.to_string();
        text.append(": ");
        text.append(self.value.to_string().as_str());
        text.append(";");
        text
    }
}

impl Selector {
    /// The selector as text, as it is written in a stylesheet.
    pub fn to_string(&self) -> (text: String)
        ensures
            text@ == selector_text(self@),
        decreases self,
    {
        match self {
            Selector::Tag(tag) => tag.to_string(),
            Selector::Class(None, class) => {
                let mut text = ".".to_owned();
                text.append(class.as_str());
                text
            },
            Selector::Class(Some(left), class) => {
                let mut text = left.to_string();
                text.append(".");
                text.append(class.as_str());
                text
            },
            Selector::Id(None, id) => {
                let mut text = "#".to_owned();
                text.append(id.as_str());
                text
            },
            Selector::Id(Some(left), id) => {
                let mut text = left.to_string();
                text.append("#");
                text.append(id.as_str());
                text
            },
            Selector::Child(left, right) => {
                let mut text = left.to_string();
                text.append(" > ");
                text.append(right.to_string().as_str());
                text
            },
            Selector::Adjacent(left, right) => {
                let mut text = left.to_string();
                text.append(" + ");
                text.append(right.to_string().as_str());
                text
            },
        }
    }
}

impl Rule {
    /// The rule as text.
    pub fn to_string(&self) -> (text: String)
        ensures
            text@ == rule_text(self@),
    {
        let mut text = String::new();
        let mut i: usize = 0;
        while i < self.selectors.len()
            invariant
                i <= self.selectors.len(),
                text@ == selector_list_text(self@.selectors, i as int),
            decreases self.selectors.len() - i,
        {
            proof {
                assert(self@.selectors[i as int] == self.selectors@[i as int]@);
            }
            if i > 0 {
                text.append(", ");
            }
            text.append(self.selectors[i].to_string().as_str());
            proof {
                assert(Seq::<char>::empty() + selector_text(self@.selectors[0])
                    =~= selector_text(self@.selectors[0]));
            }
            i += 1;
        }
        text.append(" {\n");
        let ghost head = text@;
        let mut k: usize = 0;
        while k < self.declarations.len()
            invariant
                k <= self.declarations.len(),
                text@ == head + declaration_lines_text(self@.declarations, k as int),
            decreases self.declarations.len() - k,
        {
            let ghost before = declaration_lines_text(self@.declarations, k as int);
            proof {
                assert(self@.declarations[k as int] == self.declarations@[k as int]@);
            }
            text.append("\t");
            text.append(self.declarations[k].to_string().as_str());
            text.append("\n");
            proof {
                assert(text@ =~= head + (before + "\t"@ + declaration_text(
                    self@.declarations[k as int],
                ) + "\n"@));
            }
            k += 1;
        }
        text.append("}");
        proof {
            assert(text@ =~= rule_text(self@));
        }
        text
    }
}

impl StyleSheet {
    /// The stylesheet as text: its rules, with an empty line between
    /// them.
    pub fn to_string(&self) -> (text: String)
        ensures
            text@ == rules_text(self@, self@.len() as int),
    {
        let mut text = String::new();
        let mut i: usize = 0;
        while i < self.rules.len()
            invariant
                i <= self.rules.len(),
                text@ == rules_text(self@, i as int),
            decreases self.rules.len() - i,
        {
            proof {
                assert(self@[i as int] == self.rules@[i as int]@);
            }
            let empty = text.as_str().unicode_len() == 0;
            if !empty {
                text.append("\n\n");
            }
            text.append(self.rules[i].to_string().as_str());
            proof {
                assert(Seq::<char>::empty() + rule_text(self@[i as int]) =~= rule_text(
                    self@[i as int],
                ));
            }
            i += 1;
        }
        text
    }
}

} // verus!
