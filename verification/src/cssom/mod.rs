//! The stylesheet object model: rules, selectors and declarations.

use vstd::prelude::*;
use crate::cssom::grammar::display_of;
use crate::cssom::grammar::is_shorthand;
use crate::cssom::grammar::property_of;
use crate::cssom::grammar::takes_color;
use crate::cssom::grammar::takes_length;
use crate::cssom::grammar::unit_of;
use crate::dom::ElementTagName;
use crate::dom::TagNameView;
use crate::text::chars_of;
use crate::text::is_digit;
use crate::text::is_number_char;
use crate::text::lemma_run_end_accepts;
use crate::text::lemma_run_end_bounds;
use crate::text::lemma_run_end_is;
use crate::text::lemma_run_end_step;
use crate::text::run_end;
use crate::text::same_text;
use crate::text::string_of;

pub mod cascade;
pub mod format;
pub mod grammar;
pub mod parser;
pub mod rules;
pub mod selectors;



verus! {

/// A stylesheet: its rules, in the order in which they were written.
#[derive(Debug, Default, PartialEq)]
pub struct StyleSheet {
    pub rules: Vec<Rule>,
}

/// One rule: a group of selectors, and the declarations that hold for an
/// element that any of them matches.
#[derive(Debug, Default, PartialEq)]
pub struct Rule {
    pub selectors: Vec<Selector>,
    pub declarations: Vec<Declaration>,
}

/// A selector. `Class` and `Id` may carry the selector that they compound:
/// `div.note` is the class `note` on top of the tag `div`.
#[derive(Debug, PartialEq)]
pub enum Selector {
    Tag(ElementTagName),
    Class(Option<Box<Selector>>, String),
    Id(Option<Box<Selector>>, String),
    Child(Box<Selector>, Box<Selector>),
    Adjacent(Box<Selector>, Box<Selector>),
}

/// One declaration: a property and the value given to it.
#[derive(Debug, PartialEq)]
pub struct Declaration {
    pub property: DeclarationProperty,
    pub value: DeclarationValue,
}

/// The property of a declaration.
#[derive(Debug, PartialEq, Eq, Hash)]
pub enum DeclarationProperty {
    Margin,
    MarginLeft,
    MarginRight,
    MarginTop,
    MarginBottom,
    Padding,
    PaddingLeft,
    PaddingRight,
    PaddingTop,
    PaddingBottom,
    Width,
    Height,
    Display,
    Color,
    BackgroundColor,
    BorderRadius,
    Other(String),
}

/// The value of a declaration.
#[derive(Debug, PartialEq)]
pub enum DeclarationValue {
    Color(Color),
    Length(Length),
    Display(Display),
    Other(String),
}

/// A length: a number with its unit, or the keyword that leaves the length
/// to the layout.
#[derive(Debug, PartialEq)]
pub enum Length {
    Actual(Number, Unit),
    Auto,
}

/// A decimal number, kept as text in its shortest form: digits, with at
/// most one point among them and a digit first, without zeros that add
/// nothing. Two numbers of the same value are thus the same number.
#[derive(Debug, PartialEq, Eq)]
pub struct Number {
    literal: String,
}

/// The unit of a length.
#[derive(Debug, Clone, Copy, PartialEq, Eq)]
pub enum Unit {
    Em,
    Ex,
    Ch,
    Rem,
    Vh,
    Vw,
    Vmin,
    Vmax,
    Px,
    Mm,
    Q,
    Cm,
    In,
    Pt,
    Pc,
    Pct,
}

/// How an element is laid out.
#[derive(Debug, Clone, Copy, PartialEq, Eq)]
pub enum Display {
    /// Not laid out at all (the keyword `none`).
    Hidden,
    Block,
    Inline,
    InlineBlock,
    Flex,
}

/// A colour, each channel from 0 to 255.
#[derive(Debug, Clone, Copy, Default, PartialEq, Eq)]
pub struct Color {
    pub r: usize,
    pub g: usize,
    pub b: usize,
    pub a: usize,
}

/// What a [`Selector`] is.
pub enum SelectorView {
    Tag(TagNameView),
    Class(Option<Box<SelectorView>>, Seq<char>),
    Id(Option<Box<SelectorView>>, Seq<char>),
    Child(Box<SelectorView>, Box<SelectorView>),
    Adjacent(Box<SelectorView>, Box<SelectorView>),
}

/// What a [`DeclarationProperty`] is.
pub enum PropertyView {
    Margin,
    MarginLeft,
    MarginRight,
    MarginTop,
    MarginBottom,
    Padding,
    PaddingLeft,
    PaddingRight,
    PaddingTop,
    PaddingBottom,
    Width,
    Height,
    Display,
    Color,
    BackgroundColor,
    BorderRadius,
    Other(Seq<char>),
}

/// What a [`Length`] is; the number is the sequence of its characters.
pub enum LengthView {
    Actual(Seq<char>, Unit),
    Auto,
}

/// What a [`DeclarationValue`] is.
pub enum ValueView {
    Color(Color),
    Length(LengthView),
    Display(Display),
    Other(Seq<char>),
}

/// What a [`Declaration`] is.
pub struct DeclarationView {
    pub property: PropertyView,
    pub value: ValueView,
}

/// What a [`Rule`] is.
pub struct RuleView {
    pub selectors: Seq<SelectorView>,
    pub declarations: Seq<DeclarationView>,
}

impl Selector {
    /// What the selector is: the same tree, with names as sequences of
    /// characters.
    pub open spec fn model(&self) -> SelectorView
        decreases self,
    {
        match self {
            Selector::Tag(tag) => SelectorView::Tag(tag@),
            Selector::Class(None, name) => SelectorView::Class(None, name@),
            Selector::Class(Some(left), name) => SelectorView::Class(
                Some(Box::new((**left).model())),
                name@,
            ),
            Selector::Id(None, name) => SelectorView::Id(None, name@),
            Selector::Id(Some(left), name) => SelectorView::Id(
                Some(Box::new((**left).model())),
                name@,
            ),
            Selector::Child(left, right) => SelectorView::Child(
                Box::new((**left).model()),
                Box::new((**right).model()),
            ),
            Selector::Adjacent(left, right) => SelectorView::Adjacent(
                Box::new((**left).model()),
                Box::new((**right).model()),
            ),
        }
    }
}

impl View for Selector {
    type V = SelectorView;

    open spec fn view(&self) -> SelectorView {
        self.model()
    }
}

impl View for DeclarationProperty {
    type V = PropertyView;

    open spec fn view(&self) -> PropertyView {
        match self {
            DeclarationProperty::Margin => PropertyView::Margin,
            DeclarationProperty::MarginLeft => PropertyView::MarginLeft,
            DeclarationProperty::MarginRight => PropertyView::MarginRight,
            DeclarationProperty::MarginTop => PropertyView::MarginTop,
            DeclarationProperty::MarginBottom => PropertyView::MarginBottom,
            DeclarationProperty::Padding => PropertyView::Padding,
            DeclarationProperty::PaddingLeft => PropertyView::PaddingLeft,
            DeclarationProperty::PaddingRight => PropertyView::PaddingRight,
            DeclarationProperty::PaddingTop => PropertyView::PaddingTop,
            DeclarationProperty::PaddingBottom => PropertyView::PaddingBottom,
            DeclarationProperty::Width => PropertyView::Width,
            DeclarationProperty::Height => PropertyView::Height,
            DeclarationProperty::Display => PropertyView::Display,
            DeclarationProperty::Color => PropertyView::Color,
            DeclarationProperty::BackgroundColor => PropertyView::BackgroundColor,
            DeclarationProperty::BorderRadius => PropertyView::BorderRadius,
            DeclarationProperty::Other(name) => PropertyView::Other(name@),
        }
    }
}

impl View for Number {
    type V = Seq<char>;

    closed spec fn view(&self) -> Seq<char> {
        self.literal@
    }
}

impl View for Length {
    type V = LengthView;

    open spec fn view(&self) -> LengthView {
        match self {
            Length::Actual(number, unit) => LengthView::Actual(number@, *unit),
            Length::Auto => LengthView::Auto,
        }
    }
}

impl View for DeclarationValue {
    type V = ValueView;

    open spec fn view(&self) -> ValueView {
        match self {
            DeclarationValue::Color(color) => ValueView::Color(*color),
            DeclarationValue::Length(length) => ValueView::Length(length@),
            DeclarationValue::Display(display) => ValueView::Display(*display),
            DeclarationValue::Other(text) => ValueView::Other(text@),
        }
    }
}

impl View for Declaration {
    type V = DeclarationView;

    open spec fn view(&self) -> DeclarationView {
        DeclarationView { property: self.property@, value: self.value@ }
    }
}

/// What each selector of a sequence is.
pub open spec fn selector_views(selectors: Seq<Selector>) -> Seq<SelectorView> {
    selectors.map_values(|s: Selector| s@)
}

/// What each declaration of a sequence is.
pub open spec fn declaration_views(declarations: Seq<Declaration>) -> Seq<DeclarationView> {
    declarations.map_values(|d: Declaration| d@)
}

/// What each length of a sequence is.
pub open spec fn length_views(lengths: Seq<Length>) -> Seq<LengthView> {
    lengths.map_values(|l: Length| l@)
}

/// What each rule of a sequence is.
pub open spec fn rule_views(rules: Seq<Rule>) -> Seq<RuleView> {
    rules.map_values(|r: Rule| r@)
}

impl View for Rule {
    type V = RuleView;

    open spec fn view(&self) -> RuleView {
        RuleView {
            selectors: selector_views(self.selectors@),
            declarations: declaration_views(self.declarations@),
        }
    }
}

impl View for StyleSheet {
    type V = Seq<RuleView>;

    open spec fn view(&self) -> Seq<RuleView> {
        rule_views(self.rules@)
    }
}

/// Whether `s` is a decimal number as [`Number`] keeps it: digits and at
/// most one point, with a digit first.
pub open spec fn is_number_literal(s: Seq<char>) -> bool {
    &&& s.len() > 0
    &&& is_digit(s[0])
    &&& forall|i: int| 0 <= i < s.len() ==> is_number_char(#[trigger] s[i])
    &&& forall|i: int, j: int| 0 <= i < j < s.len() ==> !(s[i] == '.' && s[j] == '.')
}

/// The end of the part of the first `n` characters of `t` that is left
/// when the zeros at its end are taken away.
pub open spec fn trimmed_end(t: Seq<char>, n: int) -> int
    decreases n,
{
    if 0 < n <= t.len() && t[n - 1] == '0' {
        trimmed_end(t, n - 1)
    } else {
        n
    }
}

/// The shortest form of a decimal number: the zeros before its first
/// digit are left out, but for the last digit before the point; so are
/// the zeros at the end of what follows the point, and the point itself
/// where nothing is left behind it. `007` is `7`, `1.50` is `1.5`, and
/// `0.0` is `0`.
pub open spec fn normal_number(t: Seq<char>) -> Seq<char> {
    let point = run_end(t, 0, |c: char| is_digit(c));
    let zeros = run_end(t, 0, |c: char| c == '0');
    let start = if zeros >= point {
        point - 1
    } else {
        zeros
    };
    let end = trimmed_end(t, t.len() as int);
    if point < t.len() && end > point + 1 {
        t.subrange(start, end)
    } else {
        t.subrange(start, point)
    }
}

/// The shortest form of a number is a number.
pub proof fn lemma_normal_number_is_literal(t: Seq<char>)
    requires
        is_number_literal(t),
    ensures
        is_number_literal(normal_number(t)),
{
    let point = run_end(t, 0, |c: char| is_digit(c));
    let zeros = run_end(t, 0, |c: char| c == '0');
    lemma_run_end_accepts(t, 0, |c: char| is_digit(c));
    lemma_run_end_step(t, 0, |c: char| is_digit(c));
    lemma_run_end_bounds(t, 0, |c: char| c == '0');
    lemma_trimmed_end_bounds(t, t.len() as int);
}

/// What is left without the zeros at its end ends inside the text.
pub proof fn lemma_trimmed_end_bounds(t: Seq<char>, n: int)
    requires
        0 <= n <= t.len(),
    ensures
        0 <= trimmed_end(t, n) <= n,
        trimmed_end(t, n) > 0 ==> t[trimmed_end(t, n) - 1] != '0',
    decreases n,
{
    if 0 < n && t[n - 1] == '0' {
        lemma_trimmed_end_bounds(t, n - 1);
    }
}

impl Number {
    #[verifier::type_invariant]
    spec fn well_formed(self) -> bool {
        is_number_literal(self.literal@)
    }

    /// The number that `literal` writes, if it writes one, in its shortest
    /// form.
    pub fn new(literal: &str) -> (number: Option<Number>)
        ensures
            number is Some <==> is_number_literal(literal@),
            number matches Some(n) ==> n@ == normal_number(literal@),
    {
        let chars = chars_of(literal);
        if chars.len() == 0 || !(chars[0] >= '0' && chars[0] <= '9') {
            return None;
        }
        let mut points: usize = 0;
        let mut i: usize = 0;
        let ghost mut point_at: int = 0;
        while i < chars.len()
            invariant
                chars@ == literal@,
                i <= chars.len(),
                points <= 1,
                points == 1 ==> 0 <= point_at < i && chars@[point_at] == '.',
                forall|j: int| 0 <= j < i ==> is_number_char(#[trigger] chars@[j]),
                points == 0 ==> forall|j: int| 0 <= j < i ==> chars@[j] != '.',
                forall|j: int, k: int| 0 <= j < k < i ==> !(chars@[j] == '.' && chars@[k] == '.'),
            decreases chars.len() - i,
        {
            let c = chars[i];
            if c == '.' {
                if points == 1 {
                    assert(chars@[point_at] == '.' && chars@[i as int] == '.');
                    return None;
                }
                points = points + 1;
                proof {
                    point_at = i as int;
                }
            } else if !(c >= '0' && c <= '9') {
                assert(!is_number_char(chars@[i as int]));
                return None;
            }
            i += 1;
        }
        let ghost t = chars@;
        let mut point: usize = 0;
        while point < chars.len() && chars[point] != '.'
            invariant
                chars@ == t,
                point <= chars.len(),
                forall|j: int| 0 <= j < t.len() ==> is_number_char(#[trigger] t[j]),
                forall|j: int| 0 <= j < point ==> is_digit(#[trigger] t[j]),
            decreases chars.len() - point,
        {
            point += 1;
        }
        let mut start: usize = 0;
        while start + 1 < point && chars[start] == '0'
            invariant
                chars@ == t,
                start < point <= chars.len(),
                forall|j: int| 0 <= j < start ==> #[trigger] t[j] == '0',
            decreases point - start,
        {
            start += 1;
        }
        let mut end: usize = chars.len();
        while end > 0 && chars[end - 1] == '0'
            invariant
                chars@ == t,
                end <= chars.len(),
                trimmed_end(t, end as int) == trimmed_end(t, t.len() as int),
            decreases end,
        {
            end -= 1;
        }
        proof {
            lemma_run_end_is(t, 0, point as int, |c: char| is_digit(c));
            if t[start as int] == '0' {
                lemma_run_end_is(t, 0, point as int, |c: char| c == '0');
            } else {
                lemma_run_end_is(t, 0, start as int, |c: char| c == '0');
            }
            lemma_normal_number_is_literal(t);
        }
        let shortest = if point < chars.len() && end > point + 1 {
            string_of(&chars, start, end)
        } else {
            string_of(&chars, start, point)
        };
        Some(Number { literal: shortest })
    }

    /// The number as text, in its shortest form.
    pub fn as_str(&self) -> (literal: &str)
        ensures
            literal@ == self@,
    {
        self.literal.as_str()
    }
}

impl Clone for Number {
    fn clone(&self) -> (copy: Self)
        ensures
            copy@ == self@,
    {
        proof {
            use_type_invariant(self);
        }
        Number { literal: self.literal.clone() }
    }
}

impl Clone for Length {
    fn clone(&self) -> (copy: Self)
        ensures
            copy@ == self@,
    {
        match self {
            Length::Actual(number, unit) => Length::Actual(number.clone(), *unit),
            Length::Auto => Length::Auto,
        }
    }
}

impl StyleSheet {
    /// The stylesheet with these rules.
    pub fn new(rules: Vec<Rule>) -> (sheet: Self)
        ensures
            sheet.rules == rules,
    {
        StyleSheet { rules }
    }
}

impl Rule {
    /// The rule with these selectors and declarations.
    pub fn new(selectors: Vec<Selector>, declarations: Vec<Declaration>) -> (rule: Self)
        ensures
            rule.selectors == selectors,
            rule.declarations == declarations,
    {
        Rule { selectors, declarations }
    }
}

impl Declaration {
    /// The declaration that gives `value` to `property`.
    pub fn new(property: DeclarationProperty, value: DeclarationValue) -> (declaration: Self)
        ensures
            declaration.property == property,
            declaration.value == value,
    {
        Declaration { property, value }
    }
}

impl Color {
    /// The colour with these channels.
    pub fn new(r: usize, g: usize, b: usize, a: usize) -> (color: Self)
        ensures
            color == (Color { r, g, b, a }),
    {
        Color { r, g, b, a }
    }
}

impl DeclarationProperty {
    /// Whether the property stands for four others, one for each side.
    pub fn is_shorthand(&self) -> (b: bool)
        ensures
            b == is_shorthand(self@),
    {
        match self {
            DeclarationProperty::Margin | DeclarationProperty::Padding => true,
            _ => false,
        }
    }

    /// Whether the value of the property is a single length.
    pub fn takes_length(&self) -> (b: bool)
        ensures
            b == takes_length(self@),
    {
        match self {
            DeclarationProperty::MarginLeft
            | DeclarationProperty::MarginRight
            | DeclarationProperty::MarginTop
            | DeclarationProperty::MarginBottom
            | DeclarationProperty::PaddingLeft
            | DeclarationProperty::PaddingRight
            | DeclarationProperty::PaddingTop
            | DeclarationProperty::PaddingBottom
            | DeclarationProperty::Width
            | DeclarationProperty::Height
            | DeclarationProperty::BorderRadius => true,
            _ => false,
        }
    }

    /// Whether the value of the property is a colour.
    pub fn takes_color(&self) -> (b: bool)
        ensures
            b == takes_color(self@),
    {
        match self {
            DeclarationProperty::Color | DeclarationProperty::BackgroundColor => true,
            _ => false,
        }
    }

    /// Whether two properties are the same one.
    pub fn same_as(&self, other: &DeclarationProperty) -> (b: bool)
        ensures
            b == (self@ == other@),
    {
        match (self, other) {
            (DeclarationProperty::Margin, DeclarationProperty::Margin) => true,
            (DeclarationProperty::MarginLeft, DeclarationProperty::MarginLeft) => true,
            (DeclarationProperty::MarginRight, DeclarationProperty::MarginRight) => true,
            (DeclarationProperty::MarginTop, DeclarationProperty::MarginTop) => true,
            (DeclarationProperty::MarginBottom, DeclarationProperty::MarginBottom) => true,
            (DeclarationProperty::Padding, DeclarationProperty::Padding) => true,
            (DeclarationProperty::PaddingLeft, DeclarationProperty::PaddingLeft) => true,
            (DeclarationProperty::PaddingRight, DeclarationProperty::PaddingRight) => true,
            (DeclarationProperty::PaddingTop, DeclarationProperty::PaddingTop) => true,
            (DeclarationProperty::PaddingBottom, DeclarationProperty::PaddingBottom) => true,
            (DeclarationProperty::Width, DeclarationProperty::Width) => true,
            (DeclarationProperty::Height, DeclarationProperty::Height) => true,
            (DeclarationProperty::Display, DeclarationProperty::Display) => true,
            (DeclarationProperty::Color, DeclarationProperty::Color) => true,
            (DeclarationProperty::BackgroundColor, DeclarationProperty::BackgroundColor) => true,
            (DeclarationProperty::BorderRadius, DeclarationProperty::BorderRadius) => true,
            (DeclarationProperty::Other(a), DeclarationProperty::Other(b)) => same_text(
                a.as_str(),
                b.as_str(),
            ),
            _ => false,
        }
    }
}

impl<'a> vstd::std_specs::convert::FromSpecImpl<&'a str> for DeclarationProperty {
    open spec fn obeys_from_spec() -> bool {
        false
    }

    open spec fn from_spec(v: &'a str) -> Self {
        choose|property: DeclarationProperty| property@ == property_of(v@)
    }
}

impl<'a> From<&'a str> for DeclarationProperty {
    /// The property that `property_name` stands for.
    fn from(property_name: &'a str) -> (property: Self)
        ensures
            property@ == property_of(property_name@),
    {
        if same_text(property_name, "margin") {
            DeclarationProperty::Margin
        } else if same_text(property_name, "margin-left") {
            DeclarationProperty::MarginLeft
        } else if same_text(property_name, "margin-right") {
            DeclarationProperty::MarginRight
        } else if same_text(property_name, "margin-top") {
            DeclarationProperty::MarginTop
        } else if same_text(property_name, "margin-bottom") {
            DeclarationProperty::MarginBottom
        } else if same_text(property_name, "padding") {
            DeclarationProperty::Padding
        } else if same_text(property_name, "padding-left") {
            DeclarationProperty::PaddingLeft
        } else if same_text(property_name, "padding-right") {
            DeclarationProperty::PaddingRight
        } else if same_text(property_name, "padding-top") {
            DeclarationProperty::PaddingTop
        } else if same_text(property_name, "padding-bottom") {
            DeclarationProperty::PaddingBottom
        } else if same_text(property_name, "width") {
            DeclarationProperty::Width
        } else if same_text(property_name, "height") {
            DeclarationProperty::Height
        } else if same_text(property_name, "display") {
            DeclarationProperty::Display
        } else if same_text(property_name, "color") {
            DeclarationProperty::Color
        } else if same_text(property_name, "background-color") {
            DeclarationProperty::BackgroundColor
        } else if same_text(property_name, "border-radius") {
            DeclarationProperty::BorderRadius
        } else {
            DeclarationProperty::Other(property_name.to_owned())
        }
    }
}

impl<'a> vstd::std_specs::convert::FromSpecImpl<&'a str> for Display {
    open spec fn obeys_from_spec() -> bool {
        true
    }

    open spec fn from_spec(v: &'a str) -> Self {
        display_of(v@)
    }
}

impl<'a> From<&'a str> for Display {
    /// The layout that the keyword `key` stands for.
    fn from(key: &'a str) -> (display: Self)
        ensures
            display == display_of(key@),
    {
        if same_text(key, "none") {
            Display::Hidden
        } else if same_text(key, "block") {
            Display::Block
        } else if same_text(key, "inline") {
            Display::Inline
        } else if same_text(key, "inline-block") {
            Display::InlineBlock
        } else if same_text(key, "flex") {
            Display::Flex
        } else {
            Display::Block
        }
    }
}

impl<'a> vstd::std_specs::convert::FromSpecImpl<&'a str> for Unit {
    open spec fn obeys_from_spec() -> bool {
        true
    }

    open spec fn from_spec(v: &'a str) -> Self {
        unit_of(v@)
    }
}

impl<'a> From<&'a str> for Unit {
    /// The unit that `name` stands for.
    fn from(name: &'a str) -> (unit: Self)
        ensures
            unit == unit_of(name@),
    {
        if same_text(name, "px") {
            Unit::Px
        } else if same_text(name, "em") {
            Unit::Em
        } else {
            Unit::Px
        }
    }
}

impl Default for DeclarationProperty {
    fn default() -> (property: Self)
        ensures
            property@ == PropertyView::Display,
    {
        DeclarationProperty::Display
    }
}

impl Default for DeclarationValue {
    fn default() -> (value: Self)
        ensures
            value@ == ValueView::Other(Seq::<char>::empty()),
    {
        DeclarationValue::Other(String::new())
    }
}

} // verus!
