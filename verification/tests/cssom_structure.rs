use parser::cssom::cascade::StyleMap;
use parser::cssom::parser::StyleSheetParser;
use parser::cssom::{
    Color, Declaration, DeclarationProperty, DeclarationValue, Display, Length, Number, Rule,
    Selector, StyleSheet, Unit,
};
use parser::dom::attributes::ElementAttributes;
use parser::dom::ElementTagName::{Article, Div, H1, P};
use parser::dom::{Element, ElementTagName, NodeKey};

fn generate_element(tag_name: ElementTagName, attrs: Vec<(NodeKey, &'static str)>) -> Element {
    let mut attributes = ElementAttributes::new();
    for (key, value) in attrs {
        attributes.insert(key, value.to_string());
    }
    Element::new(tag_name, attributes, vec![])
}

fn named_element(tag_name: &'static str, attrs: Vec<(&'static str, &'static str)>) -> Element {
    let mut attributes = ElementAttributes::new();
    for (key, value) in attrs {
        attributes.insert(NodeKey::from(key), value.to_string());
    }
    Element::new(ElementTagName::from(tag_name), attributes, vec![])
}

fn div() -> Option<Box<Selector>> {
    Some(Box::new(Selector::Tag(ElementTagName::Div)))
}

#[test]
fn test_test_selector_matches_class_name() {
    let div_selector = Selector::Class(div(), "box".to_string());

    assert!(Selector::Id(div(), "book".to_string()).matches(&Element::new(
        ElementTagName::Div,
        ElementAttributes::from_iter(vec![(NodeKey::Id, "book".to_string())]),
        vec![],
    )));
    let element = generate_element(ElementTagName::Div, vec![(NodeKey::Class, "box")]);
    assert!(div_selector.matches(&element));

    let element = generate_element(ElementTagName::Div, vec![(NodeKey::Class, "table")]);
    assert!(!div_selector.matches(&element));

    let mut attributes = ElementAttributes::new();
    attributes.insert(NodeKey::Id, "book".to_string());
    assert!(Selector::Id(div(), "book".to_string())
        .matches(&Element::new(ElementTagName::Div, attributes, vec![])));
}

#[test]
fn test_test_none_selector_matches_class_name() {
    let none_selector = Selector::Class(None, "box".to_string());
    let element = generate_element(ElementTagName::Div, vec![(NodeKey::Class, "box")]);
    assert!(none_selector.matches(&element));

    let element = generate_element(ElementTagName::Div, vec![(NodeKey::Class, "table")]);
    assert!(!none_selector.matches(&element));
}

#[test]
fn test_test_selector_matches_id() {
    let div_selector = Selector::Id(div(), "box".to_string());

    let element = generate_element(ElementTagName::Div, vec![(NodeKey::Id, "box")]);
    assert!(div_selector.matches(&element));

    let element = generate_element(ElementTagName::Div, vec![(NodeKey::Id, "table")]);
    assert!(!div_selector.matches(&element));
}

#[test]
fn test_test_none_selector_matches_id() {
    let none_selector = Selector::Id(None, "box".to_string());
    let element = generate_element(ElementTagName::Div, vec![(NodeKey::Id, "box")]);
    assert!(none_selector.matches(&element));

    let element = generate_element(ElementTagName::Div, vec![(NodeKey::Id, "table")]);
    assert!(!none_selector.matches(&element));
}

#[test]
fn test_test_debug_selector() {
    let tests = vec![
        (Selector::Tag(Div), "div".to_string()),
        (Selector::Class(None, "box".to_string()), ".box".to_string()),
        (Selector::Class(div(), "box".to_string()), "div.box".to_string()),
        (Selector::Id(None, "box".to_string()), "#box".to_string()),
        (Selector::Id(div(), "box".to_string()), "div#box".to_string()),
        (
            Selector::Child(Box::new(Selector::Tag(Article)), Box::new(Selector::Tag(P))),
            "article > p".to_string(),
        ),
        (
            Selector::Adjacent(Box::new(Selector::Tag(H1)), Box::new(Selector::Tag(P))),
            "h1 + p".to_string(),
        ),
    ];
    for (actual, expect) in tests {
        assert_eq!(actual.to_string(), expect)
    }
}

#[test]
fn structure_test_selector_matches_class_name() {
    let div_selector = Selector::Class(
        Some(Box::new(Selector::Tag(ElementTagName::from("div")))),
        "box".to_string(),
    );

    let element = named_element("div", vec![("class", "box")]);
    assert!(div_selector.matches(&element));

    let element = named_element("div", vec![("class", "table")]);
    assert!(!div_selector.matches(&element));
}

#[test]
fn structure_test_none_selector_matches_class_name() {
    let none_selector = Selector::Class(None, "box".to_string());
    let element = named_element("div", vec![("class", "box")]);
    assert!(none_selector.matches(&element));

    let element = named_element("div", vec![("class", "table")]);
    assert!(!none_selector.matches(&element));
}

#[test]
fn structure_test_selector_matches_id() {
    let div_selector = Selector::Id(
        Some(Box::new(Selector::Tag(ElementTagName::from("div")))),
        "box".to_string(),
    );

    let element = named_element("div", vec![("id", "box")]);
    assert!(div_selector.matches(&element));

    let element = named_element("div", vec![("id", "table")]);
    assert!(!div_selector.matches(&element));
}

#[test]
fn structure_test_none_selector_matches_id() {
    let none_selector = Selector::Id(None, "box".to_string());
    let element = named_element("div", vec![("id", "box")]);
    assert!(none_selector.matches(&element));

    let element = named_element("div", vec![("id", "table")]);
    assert!(!none_selector.matches(&element));
}

#[test]
fn structure_test_debug_selector() {
    let tests = vec![
        (Selector::Tag(ElementTagName::from("div")), "div".to_string()),
        (Selector::Class(None, "box".to_string()), ".box".to_string()),
        (
            Selector::Class(
                Some(Box::new(Selector::Tag(ElementTagName::from("div")))),
                "box".to_string(),
            ),
            "div.box".to_string(),
        ),
        (Selector::Id(None, "box".to_string()), "#box".to_string()),
        (
            Selector::Id(
                Some(Box::new(Selector::Tag(ElementTagName::from("div")))),
                "box".to_string(),
            ),
            "div#box".to_string(),
        ),
        (
            Selector::Child(
                Box::new(Selector::Tag(ElementTagName::Article)),
                Box::new(Selector::Tag(ElementTagName::from("p"))),
            ),
            "article > p".to_string(),
        ),
        (
            Selector::Adjacent(
                Box::new(Selector::Tag(ElementTagName::from("h1"))),
                Box::new(Selector::Tag(ElementTagName::from("p"))),
            ),
            "h1 + p".to_string(),
        ),
    ];
    for (actual, expect) in tests {
        assert_eq!(actual.to_string(), expect)
    }
}

#[test]
fn compound_selector_is_a_conjunction_on_one_element() {
    let selector = Selector::Class(div(), "box".to_string());
    assert!(selector.matches(&generate_element(ElementTagName::Div, vec![(NodeKey::Class, "box")])));
    let span = generate_element(
        ElementTagName::Other("span".to_string()),
        vec![(NodeKey::Class, "box")],
    );
    assert!(!selector.matches(&span));
    assert!(Selector::Class(None, "box".to_string()).matches(&span));
}

#[test]
fn an_element_without_the_attribute_matches_no_class_or_id() {
    let bare = generate_element(ElementTagName::Div, vec![]);
    assert!(!Selector::Class(None, "".to_string()).matches(&bare));
    assert!(!Selector::Id(None, "".to_string()).matches(&bare));
    assert!(!Selector::Class(None, "box".to_string()).matches(&bare));
    assert!(!Selector::Id(None, "box".to_string()).matches(&bare));
    let div = || Some(Box::new(Selector::Tag(ElementTagName::Div)));
    assert!(!Selector::Class(div(), "".to_string()).matches(&bare));
    assert!(!Selector::Id(div(), "".to_string()).matches(&bare));
    let empty = generate_element(
        ElementTagName::Div,
        vec![(NodeKey::Class, ""), (NodeKey::Id, "")],
    );
    assert!(Selector::Class(None, "".to_string()).matches(&empty));
    assert!(Selector::Id(div(), "".to_string()).matches(&empty));
}

#[test]
fn combinators_match_no_element() {
    let element = generate_element(ElementTagName::P, vec![]);
    let p = || Box::new(Selector::Tag(ElementTagName::P));
    assert!(Selector::Tag(ElementTagName::P).matches(&element));
    assert!(!Selector::Child(p(), p()).matches(&element));
    assert!(!Selector::Adjacent(p(), p()).matches(&element));
    assert!(!Selector::Class(Some(Box::new(Selector::Child(p(), p()))), "".to_string())
        .matches(&element));
}

fn display(display: Display) -> Declaration {
    Declaration::new(DeclarationProperty::Display, DeclarationValue::Display(display))
}

#[test]
fn the_later_of_two_rules_wins() {
    let first = Rule::new(
        vec![Selector::Tag(ElementTagName::Div)],
        vec![display(Display::Flex)],
    );
    let second = Rule::new(
        vec![Selector::Class(div(), "box".to_string())],
        vec![display(Display::Inline)],
    );
    let sheet = StyleSheet::new(vec![first, second]);
    let element = generate_element(ElementTagName::Div, vec![(NodeKey::Class, "box")]);
    let styles = sheet.get_styles(&element);
    assert_eq!(
        styles.get(&DeclarationProperty::Display),
        Some(&DeclarationValue::Display(Display::Inline))
    );
    assert_eq!(styles.len(), 1);

    let other = generate_element(ElementTagName::Div, vec![]);
    assert_eq!(
        sheet.get_styles(&other).get(&DeclarationProperty::Display),
        Some(&DeclarationValue::Display(Display::Flex))
    );
}

#[test]
fn styles_come_from_the_rules_that_apply() {
    let sheet = StyleSheetParser::new(
        "p, div { width: 1px; color: #010203; } #x { width: 2px; } p { height: 3px; width: auto; }",
    )
    .parse()
    .unwrap();
    let element = generate_element(ElementTagName::Div, vec![(NodeKey::Id, "x")]);
    let styles = sheet.get_styles(&element);
    assert_eq!(styles.len(), 2);
    assert_eq!(
        styles.get(&DeclarationProperty::Width),
        Some(&DeclarationValue::Length(Length::Actual(Number::new("2").unwrap(), Unit::Px)))
    );
    assert_eq!(
        styles.get(&DeclarationProperty::Color),
        Some(&DeclarationValue::Color(Color::new(1, 2, 3, 0)))
    );
    assert_eq!(styles.get(&DeclarationProperty::Height), None);
    assert!(sheet.rules[0].applies_to(&element));
    assert!(!sheet.rules[2].applies_to(&element));

    let nothing = sheet.get_styles(&generate_element(ElementTagName::H1, vec![]));
    assert!(nothing.is_empty());
    assert_eq!(nothing.to_string(), "{}");
}

#[test]
fn style_maps_keep_one_value_for_each_property() {
    let width = DeclarationProperty::Width;
    let other = DeclarationProperty::Other("x".to_string());
    let one = DeclarationValue::Other("1".to_string());
    let two = DeclarationValue::Other("2".to_string());
    let mut styles = StyleMap::new();
    assert!(styles.is_empty());
    styles.insert(&width, &one);
    styles.insert(&other, &one);
    styles.insert(&width, &two);
    assert_eq!(styles.len(), 2);
    assert_eq!(styles.get(&DeclarationProperty::Width), Some(&two));
    assert_eq!(styles.get(&DeclarationProperty::Other("x".to_string())), Some(&one));
    assert_eq!(styles.get(&DeclarationProperty::Other("y".to_string())), None);
    assert_eq!(styles.entry(0), (&width, &two));
    assert_eq!(styles.to_string(), "{width: 2, x: 1}");
    assert!(width.same_as(&DeclarationProperty::Width));
    assert!(!width.same_as(&other));
}

#[test]
fn a_parsed_rule_is_written_out_again() {
    let sheet = StyleSheetParser::new(
        "div.a > p#b , h1 {\n display : flex ; margin-top:1.5em; color: #0a0b0c0d; x: y; }",
    )
    .parse()
    .unwrap();
    assert_eq!(
        sheet.to_string(),
        "div.a > p#b, h1 {\n\tdisplay: flex;\n\tmargin-top: 1.5em;\n\tcolor: #0a0b0c0d;\n\tx: y;\n}"
    );
    // What was written is read as the same stylesheet again.
    assert_eq!(StyleSheetParser::new(sheet.to_string().as_str()).parse(), Ok(sheet));
    let selector = StyleSheetParser::new("div.a > p#b").parse_one_selector().unwrap();
    assert_eq!(selector.to_string(), "div.a > p#b");
    assert_eq!(
        StyleSheetParser::new(selector.to_string().as_str()).parse_one_selector(),
        Ok(selector)
    );
}

#[test]
fn a_written_selector_is_read_again() {
    for text in ["div", "span", ".a", "#b", "article.a#b", "span > p", "h1 + .x > #y", "my-tag.c_1"] {
        let selector = StyleSheetParser::new(text).parse_one_selector().unwrap();
        assert_eq!(selector.to_string(), text);
        assert_eq!(
            StyleSheetParser::new(selector.to_string().as_str()).parse_one_selector(),
            Ok(selector)
        );
    }
    assert_eq!(
        StyleSheetParser::new("span").parse_one_selector(),
        Ok(Selector::Tag(ElementTagName::Other("span".to_string())))
    );
    assert_eq!(
        StyleSheetParser::new("article").parse_one_selector(),
        Ok(Selector::Tag(ElementTagName::Article))
    );
}

#[test]
fn a_written_stylesheet_is_read_again() {
    let text = "div, .a > p {\n\tdisplay: inline-block;\n\twidth: auto;\n\theight: 1.5em;\n\tbackground-color: #00ff7f10;\n\tfont: serif;\n}\n\nh1 {\n}";
    let sheet = StyleSheetParser::new(text).parse().unwrap();
    assert_eq!(sheet.rules.len(), 2);
    assert_eq!(sheet.to_string(), text);
    assert_eq!(StyleSheetParser::new(sheet.to_string().as_str()).parse(), Ok(sheet));
}

#[test]
fn a_selector_is_written_as_it_was_read_but_for_blank_space() {
    let text = "  div .a>p# b +h1 ";
    let selector = StyleSheetParser::new(text).parse_one_selector().unwrap();
    let written = selector.to_string();
    assert_eq!(written, "div.a > p#b + h1");
    let marks = |t: &str| t.chars().filter(|c| !c.is_whitespace()).collect::<String>();
    assert_eq!(marks(&written), marks(text));
    assert_eq!(marks(&written), "div.a>p#b+h1");
}

#[test]
fn stylesheets_are_written_with_an_empty_line_between_rules() {
    let sheet = StyleSheetParser::new("a{} p{display:none;}").parse().unwrap();
    assert_eq!(sheet.to_string(), "a {\n}\n\np {\n\tdisplay: none;\n}");
    assert_eq!(StyleSheetParser::new(sheet.to_string().as_str()).parse().as_ref(), Ok(&sheet));
    assert_eq!(sheet.rules[0].to_string(), "a {\n}");
    assert_eq!(StyleSheet::new(vec![]).to_string(), "");
}

#[test]
fn numbers_of_the_same_value_are_the_same_number() {
    let text = |t: &str| Number::new(t).unwrap().as_str().to_string();
    assert_eq!(text("10"), "10");
    assert_eq!(text("007"), "7");
    assert_eq!(text("000"), "0");
    assert_eq!(text("1.50"), "1.5");
    assert_eq!(text("1.0"), "1");
    assert_eq!(text("1."), "1");
    assert_eq!(text("0.0"), "0");
    assert_eq!(text("0.05"), "0.05");
    assert_eq!(text("100.010"), "100.01");
    assert_eq!(Number::new("1.0"), Number::new("1"));
    assert_ne!(Number::new("1.5"), Number::new("1"));
    assert_eq!(Number::new(".5"), None);
    assert_eq!(Number::new("1.2.3"), None);
    assert_eq!(Number::new("1a"), None);
    assert_eq!(Number::new(""), None);
    assert_eq!(
        StyleSheetParser::new("p { width: 1.0px; }").parse(),
        StyleSheetParser::new("p { width: 1px; }").parse()
    );
}

#[test]
fn values_are_written_as_text() {
    assert_eq!(Color::new(0, 9, 10, 255).to_string(), "#00090aff");
    assert_eq!(Length::Auto.to_string(), "auto");
    assert_eq!(
        Length::Actual(Number::new("0.5").unwrap(), Unit::Pct).to_string(),
        "0.5pct"
    );
    assert_eq!(Display::Hidden.to_string(), "none");
    assert_eq!(Display::InlineBlock.to_string(), "inline-block");
    assert_eq!(Unit::Vmin.to_string(), "vmin");
    assert_eq!(DeclarationValue::Other("a\"b".to_string()).to_string(), "a\"b");
    assert_eq!(DeclarationProperty::BackgroundColor.to_string(), "background-color");
    assert_eq!(DeclarationProperty::Other("font".to_string()).to_string(), "font");
    assert_eq!(display(Display::Block).to_string(), "display: block;");
    assert_eq!(DeclarationValue::default(), DeclarationValue::Other(String::new()));
    assert_eq!(DeclarationProperty::default(), DeclarationProperty::Display);
    assert!(DeclarationProperty::Margin.is_shorthand());
    assert!(DeclarationProperty::Height.takes_length());
    assert!(DeclarationProperty::Color.takes_color());
    assert!(!DeclarationProperty::Display.takes_length());
}
