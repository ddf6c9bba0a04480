use parser::cssom::parser::StyleSheetParser;
use parser::cssom::{
    Color, Declaration, DeclarationProperty, DeclarationValue, Display, Length, Number, Rule,
    Selector, StyleSheet, Unit,
};
use parser::dom::ElementTagName;
use parser::cssom::DeclarationProperty::{
    Margin, MarginBottom, MarginLeft, MarginRight, MarginTop, Padding, PaddingBottom,
    PaddingLeft, PaddingRight, PaddingTop,
};
use parser::cssom::Unit::{Em, Px};
use parser::dom::ElementTagName::{Div, Head, P};
use parser::error::ErrorKind::StructuralParseError;
use parser::error::{ErrorKind, Expected, Found, ParseError};

fn new(input: &str) -> StyleSheetParser {
    StyleSheetParser::new(input)
}

fn tag(name: ElementTagName) -> Selector {
    Selector::Tag(name)
}

fn boxed(selector: Selector) -> Box<Selector> {
    Box::new(selector)
}

fn actual(number: f32, unit: Unit) -> Length {
    Length::Actual(Number::new(&format!("{}", number)).unwrap(), unit)
}

fn length(property: DeclarationProperty, number: f32, unit: Unit) -> Declaration {
    Declaration::new(property, DeclarationValue::Length(actual(number, unit)))
}

fn selector_cases() -> Vec<(&'static str, Selector)> {
    vec![
        ("div", tag(Div)),
        (".box", Selector::Class(None, "box".to_string())),
        ("p.box", Selector::Class(Some(boxed(tag(P))), "box".to_string())),
        ("#box", Selector::Id(None, "box".to_string())),
        ("p#box", Selector::Id(Some(boxed(tag(P))), "box".to_string())),
        ("head > div", Selector::Child(boxed(tag(Head)), boxed(tag(Div)))),
        (
            "head > div > p",
            Selector::Child(
                boxed(tag(Head)),
                boxed(Selector::Child(boxed(tag(Div)), boxed(tag(P)))),
            ),
        ),
        ("head + div", Selector::Adjacent(boxed(tag(Head)), boxed(tag(Div)))),
        (
            "head + div + p",
            Selector::Adjacent(
                boxed(tag(Head)),
                boxed(Selector::Adjacent(boxed(tag(Div)), boxed(tag(P)))),
            ),
        ),
        (
            ".table > p",
            Selector::Child(boxed(Selector::Class(None, "table".to_string())), boxed(tag(P))),
        ),
        (
            ".table > #box",
            Selector::Child(
                boxed(Selector::Class(None, "table".to_string())),
                boxed(Selector::Id(None, "box".to_string())),
            ),
        ),
        (
            "div.table > p#box",
            Selector::Child(
                boxed(Selector::Class(Some(boxed(tag(Div))), "table".to_string())),
                boxed(Selector::Id(Some(boxed(tag(P))), "box".to_string())),
            ),
        ),
    ]
}

#[test]
fn test_test_parse() {
    let mut parser = StyleSheetParser::new(
        r#"
div > .table {
    margin: auto ;
    padding : 10.5 px;
    color: #aa11ff22;
}


#answer, h1 {
    display: none;
}
"#,
    );
    let selectors = vec![Selector::Child(
        boxed(tag(ElementTagName::Div)),
        boxed(Selector::Class(None, "table".to_string())),
    )];
    let declarations = vec![
        Declaration::new(MarginTop, DeclarationValue::Length(Length::Auto)),
        Declaration::new(MarginRight, DeclarationValue::Length(Length::Auto)),
        Declaration::new(MarginBottom, DeclarationValue::Length(Length::Auto)),
        Declaration::new(MarginLeft, DeclarationValue::Length(Length::Auto)),
        length(PaddingTop, 10.5, Unit::Px),
        length(PaddingRight, 10.5, Unit::Px),
        length(PaddingBottom, 10.5, Unit::Px),
        length(PaddingLeft, 10.5, Unit::Px),
        Declaration::new(
            DeclarationProperty::Color,
            DeclarationValue::Color(Color::new(0xaa, 0x11, 0xff, 0x22)),
        ),
    ];
    let rule1 = Rule::new(selectors, declarations);

    let selectors = vec![
        Selector::Id(None, "answer".to_string()),
        tag(ElementTagName::H1),
    ];
    let declarations = vec![Declaration::new(
        DeclarationProperty::Display,
        DeclarationValue::Display(Display::Hidden),
    )];
    let rule2 = Rule::new(selectors, declarations);

    let expect = StyleSheet::new(vec![rule1, rule2]);
    assert_eq!(parser.parse(), Ok(expect));
}

#[test]
fn test_test_parse_rule() {
    let mut parser = StyleSheetParser::new(
        r#"
div > .table {
    margin: auto ;
    padding : 10.5 px;
    color: #aa11ff22;
    display: flex;
}"#,
    );
    let selectors = vec![Selector::Child(
        boxed(tag(ElementTagName::Div)),
        boxed(Selector::Class(None, "table".to_string())),
    )];
    let declarations = vec![
        Declaration::new(MarginTop, DeclarationValue::Length(Length::Auto)),
        Declaration::new(MarginRight, DeclarationValue::Length(Length::Auto)),
        Declaration::new(MarginBottom, DeclarationValue::Length(Length::Auto)),
        Declaration::new(MarginLeft, DeclarationValue::Length(Length::Auto)),
        length(PaddingTop, 10.5, Unit::Px),
        length(PaddingRight, 10.5, Unit::Px),
        length(PaddingBottom, 10.5, Unit::Px),
        length(PaddingLeft, 10.5, Unit::Px),
        Declaration::new(
            DeclarationProperty::Color,
            DeclarationValue::Color(Color::new(0xaa, 0x11, 0xff, 0x22)),
        ),
        Declaration::new(
            DeclarationProperty::Display,
            DeclarationValue::Display(Display::Flex),
        ),
    ];
    let expect = Rule::new(selectors, declarations);
    assert_eq!(parser.parse_rule(), Ok(expect));
}

#[test]
fn test_test_parse_selector_unit() {
    for (input, expect) in selector_cases() {
        assert_eq!(new(input).parse_one_selector(), Ok(expect));
    }
}

#[test]
fn parser_test_parse_selector_unit() {
    for (input, expect) in selector_cases() {
        let mut parser = new(input);
        assert_eq!(parser.parse_one_selector(), Ok(expect));
        assert_eq!(parser.position(), input.chars().count());
    }
}

#[test]
fn test_test_parse_declaration() {
    let tests = vec![
        (
            DeclarationProperty::MarginLeft,
            new("auto;"),
            Declaration::new(
                DeclarationProperty::MarginLeft,
                DeclarationValue::Length(Length::Auto),
            ),
        ),
        (
            DeclarationProperty::Color,
            new("#aa11ff22;"),
            Declaration::new(
                DeclarationProperty::Color,
                DeclarationValue::Color(Color::new(0xaa, 0x11, 0xff, 0x22)),
            ),
        ),
        (
            DeclarationProperty::Color,
            new("#aa11ff ;"),
            Declaration::new(
                DeclarationProperty::Color,
                DeclarationValue::Color(Color::new(0xaa, 0x11, 0xff, 0x00)),
            ),
        ),
    ];
    for (prop, mut parser, expect) in tests {
        assert_eq!(parser.parse_declaration(prop), Ok(expect))
    }
}

#[test]
fn test_parse_declarations() {
    let tests = vec![
        (
            Margin,
            new("10em;"),
            vec![
                length(MarginTop, 10.0, Em),
                length(MarginRight, 10.0, Em),
                length(MarginBottom, 10.0, Em),
                length(MarginLeft, 10.0, Em),
            ],
        ),
        (
            Padding,
            new("10em 1.2px;"),
            vec![
                length(PaddingTop, 10.0, Em),
                length(PaddingRight, 1.2, Px),
                length(PaddingBottom, 10.0, Em),
                length(PaddingLeft, 1.2, Px),
            ],
        ),
        (
            Margin,
            new("10em 1.2px 3em;"),
            vec![
                length(MarginTop, 10.0, Em),
                length(MarginRight, 1.2, Px),
                length(MarginBottom, 3.0, Em),
                length(MarginLeft, 1.2, Px),
            ],
        ),
        (
            Margin,
            new("10em 1.2px 3em 5.2em;"),
            vec![
                length(MarginTop, 10.0, Em),
                length(MarginRight, 1.2, Px),
                length(MarginBottom, 3.0, Em),
                length(MarginLeft, 5.2, Em),
            ],
        ),
    ];
    for (prop, mut parser, expect) in tests {
        assert_eq!(parser.parse_declarations(prop), Ok(expect))
    }
}

#[test]
fn test_test_consume_identifier() {
    assert_eq!(new("h_1, h_2").consume_identifier(), "h_1".to_string());
}

#[test]
fn parser_test_consume_identifier() {
    let mut parser = new("h_1, h_2");
    assert_eq!(parser.consume_identifier(), "h_1".to_string());
    assert_eq!(parser.peek(), Some(','));
}

#[test]
fn test_test_consume_hex() {
    assert_eq!(new("ffaa").consume_hex(2), 0xff);
}

#[test]
fn parser_test_consume_hex() {
    let mut parser = new("ffaa");
    assert_eq!(parser.consume_hex(2), 0xff);
    assert_eq!(parser.consume_hex(2), 0xaa);
}

#[test]
fn parser_test_consume_number() {
    let number = new("10.2").consume_number().unwrap();
    assert_eq!(number.as_str(), "10.2");
    assert_eq!(number.as_str().parse::<f32>().unwrap(), 10.2 as f32);
}

#[test]
fn test_test_consume_number() {
    let number = new("10.2").consume_number().unwrap();
    assert!(f32::eq(&number.as_str().parse::<f32>().unwrap(), &10.2));
}

#[test]
fn parser_test_consume_for() {
    assert_eq!(
        new("h1h2").consume_for(&|ch: &char| ch.is_ascii_alphanumeric(), 2),
        "h1".to_string(),
    );
}

#[test]
fn test_test_consume() {
    assert_eq!(
        new("h1, h2").consume(&|ch: &char| ch.is_ascii_alphanumeric()),
        "h1".to_string(),
    );
}

#[test]
fn parser_test_consume() {
    let mut parser = new("h1, h2");
    assert_eq!(
        parser.consume(&|ch: &char| ch.is_ascii_alphanumeric()),
        "h1".to_string(),
    );
    assert_eq!(parser.position(), 2);
}

#[test]
fn test_test_skip_whitespace() {
    let mut parser = new("  x ");
    parser.skip_whitespace();
    assert_eq!(parser.peek().unwrap(), 'x');
}

#[test]
fn parser_test_skip_whitespace() {
    let mut parser = new("  x ");
    parser.skip_whitespace();
    assert_eq!(parser.position(), 2);
    assert_eq!(parser.bump(), Ok(()));
    assert_eq!(parser.position(), 3);
}

#[test]
fn combinators_nest_to_the_right() {
    let parsed = new("head > div > p").parse_one_selector().unwrap();
    assert_eq!(
        parsed,
        Selector::Child(
            boxed(tag(Head)),
            boxed(Selector::Child(boxed(tag(Div)), boxed(tag(P)))),
        )
    );
    assert_ne!(
        parsed,
        Selector::Child(
            boxed(Selector::Child(boxed(tag(Head)), boxed(tag(Div)))),
            boxed(tag(P)),
        )
    );
}

#[test]
fn classes_and_ids_stack_on_one_element() {
    let parsed = new("p.a#b.c").parse_one_selector().unwrap();
    let p_a = Selector::Class(Some(boxed(tag(ElementTagName::P))), "a".to_string());
    let p_a_b = Selector::Id(Some(boxed(p_a)), "b".to_string());
    assert_eq!(parsed, Selector::Class(Some(boxed(p_a_b)), "c".to_string()));
}

#[test]
fn margin_shorthand_stands_for_four_sides() {
    assert_eq!(
        new("10px;").parse_declarations(Margin),
        Ok(vec![
            length(MarginTop, 10.0, Px),
            length(MarginRight, 10.0, Px),
            length(MarginBottom, 10.0, Px),
            length(MarginLeft, 10.0, Px),
        ])
    );
    assert_eq!(
        new("1em 2px 3em 4px;").parse_declarations(Margin),
        Ok(vec![
            length(MarginTop, 1.0, Em),
            length(MarginRight, 2.0, Px),
            length(MarginBottom, 3.0, Em),
            length(MarginLeft, 4.0, Px),
        ])
    );
    assert_eq!(
        new("1em 2px;").parse_declarations(Margin),
        Ok(vec![
            length(MarginTop, 1.0, Em),
            length(MarginRight, 2.0, Px),
            length(MarginBottom, 1.0, Em),
            length(MarginLeft, 2.0, Px),
        ])
    );
}

#[test]
fn shorthand_in_a_rule_is_replaced_by_its_sides() {
    let sheet = new("div { margin: 10px; }").parse().unwrap();
    assert_eq!(sheet.rules.len(), 1);
    let properties: Vec<&DeclarationProperty> =
        sheet.rules[0].declarations.iter().map(|d| &d.property).collect();
    assert_eq!(
        properties,
        vec![
            &DeclarationProperty::MarginTop,
            &DeclarationProperty::MarginRight,
            &DeclarationProperty::MarginBottom,
            &DeclarationProperty::MarginLeft,
        ]
    );
}

#[test]
fn colors_have_four_channels() {
    assert_eq!(
        new("#aa11ff22;").parse_declaration(DeclarationProperty::Color),
        Ok(Declaration::new(
            DeclarationProperty::Color,
            DeclarationValue::Color(Color { r: 0xaa, g: 0x11, b: 0xff, a: 0x22 }),
        ))
    );
    assert_eq!(
        new("#aa11ff;").parse_declaration(DeclarationProperty::BackgroundColor),
        Ok(Declaration::new(
            DeclarationProperty::BackgroundColor,
            DeclarationValue::Color(Color { r: 0xaa, g: 0x11, b: 0xff, a: 0 }),
        ))
    );
    assert_eq!(
        new("#AA11FF;").parse_declaration(DeclarationProperty::Color),
        Ok(Declaration::new(
            DeclarationProperty::Color,
            DeclarationValue::Color(Color { r: 0xaa, g: 0x11, b: 0xff, a: 0 }),
        ))
    );
}

#[test]
fn hex_digits_write_their_number() {
    assert_eq!(new("0").consume_hex(2), 0);
    assert_eq!(new("f").consume_hex(2), 15);
    assert_eq!(new("10").consume_hex(2), 16);
    assert_eq!(new("abc").consume_hex(3), 0xabc);
    assert_eq!(new("zz").consume_hex(2), 0);
    assert_eq!(new("ffffffffffffffffffffffff").consume_hex(24), 0);
}

#[test]
fn unknown_names_fall_back() {
    assert_eq!(Display::from("grid"), Display::Block);
    assert_eq!(Display::from("inline-block"), Display::InlineBlock);
    assert_eq!(Unit::from("px"), Unit::Px);
    assert_eq!(Unit::from("em"), Unit::Em);
    assert_eq!(Unit::from("furlong"), Unit::Px);
    assert_eq!(Unit::from(""), Unit::Px);
    assert_eq!(
        DeclarationProperty::from("font-family"),
        DeclarationProperty::Other("font-family".to_string())
    );
    assert_eq!(DeclarationProperty::from("border-radius"), DeclarationProperty::BorderRadius);
    assert_eq!(DeclarationProperty::from("Margin"), DeclarationProperty::Other("Margin".to_string()));
    assert_eq!(
        new("red;").parse_declaration(DeclarationProperty::Other("outline".to_string())),
        Ok(Declaration::new(
            DeclarationProperty::Other("outline".to_string()),
            DeclarationValue::Other("red".to_string()),
        ))
    );
    assert_eq!(
        new("12.5furlong;").parse_declaration(DeclarationProperty::Width),
        Ok(length(DeclarationProperty::Width, 12.5, Unit::Px))
    );
}

fn error(kind: ErrorKind, offset: usize, expected: Expected, found: Found) -> ParseError {
    ParseError { kind, offset, expected, found }
}

#[test]
fn missing_delimiters_are_structural_errors() {
    assert_eq!(
        new("div { color #fff; }").parse(),
        Err(error(StructuralParseError, 12, Expected::Char(':'), Found::Char('#')))
    );
    assert_eq!(
        new("div { display: none }").parse(),
        Err(error(StructuralParseError, 20, Expected::Char(';'), Found::Char('}')))
    );
    assert_eq!(
        new("div  display: none; }").parse(),
        Err(error(StructuralParseError, 12, Expected::Selector, Found::Char(':')))
    );
    assert_eq!(
        new("div { display: none;").parse(),
        Err(error(StructuralParseError, 20, Expected::Char('}'), Found::EndOfInput))
    );
    assert_eq!(
        new("div").parse(),
        Err(error(StructuralParseError, 3, Expected::Char('{'), Found::EndOfInput))
    );
    assert_eq!(
        new("div { color: fff; }").parse(),
        Err(error(StructuralParseError, 13, Expected::Char('#'), Found::Char('f')))
    );
}

#[test]
fn selectors_need_their_parts() {
    assert_eq!(
        new("> p").parse_one_selector(),
        Err(error(StructuralParseError, 0, Expected::LeftOperand, Found::Char('>')))
    );
    assert_eq!(
        new("+ p").parse_one_selector(),
        Err(error(StructuralParseError, 0, Expected::LeftOperand, Found::Char('+')))
    );
    assert_eq!(
        new("  {").parse_one_selector(),
        Err(error(StructuralParseError, 2, Expected::Selector, Found::Char('{')))
    );
    assert_eq!(
        new("div >").parse_one_selector(),
        Err(error(StructuralParseError, 5, Expected::Selector, Found::EndOfInput))
    );
}

#[test]
fn lengths_have_to_be_readable() {
    assert_eq!(
        new("1.2.3px;").parse_declaration(DeclarationProperty::Width),
        Err(error(ErrorKind::LexError, 0, Expected::Number, Found::Char('1')))
    );
    assert_eq!(
        new("1px #;").parse_declarations(DeclarationProperty::Margin),
        Err(error(ErrorKind::LexError, 4, Expected::Length, Found::Char('#')))
    );
    assert_eq!(
        new(";").parse_declarations(DeclarationProperty::Margin),
        Err(error(
            ErrorKind::StructuralParseError,
            0,
            Expected::OneToFourLengths,
            Found::Char(';')
        ))
    );
    assert_eq!(
        new("1px 2px 3px 4px 5px;").parse_declarations(DeclarationProperty::Padding),
        Err(error(
            ErrorKind::StructuralParseError,
            19,
            Expected::OneToFourLengths,
            Found::Char(';')
        ))
    );
    assert_eq!(
        new("1px").parse_declarations(DeclarationProperty::Margin),
        Err(error(ErrorKind::StructuralParseError, 3, Expected::Char(';'), Found::EndOfInput))
    );
    assert_eq!(
        new("").parse_declaration(DeclarationProperty::Height),
        Err(error(ErrorKind::StructuralParseError, 0, Expected::Length, Found::EndOfInput))
    );
    assert_eq!(
        new("1px;").parse_declarations(DeclarationProperty::Width),
        Err(error(ErrorKind::StructuralParseError, 0, Expected::Shorthand, Found::Char('1')))
    );
    assert_eq!(
        new("1px;").parse_declaration(DeclarationProperty::Margin),
        Err(error(ErrorKind::StructuralParseError, 0, Expected::Longhand, Found::Char('1')))
    );
}

#[test]
fn cursor_errors_name_what_was_expected() {
    assert_eq!(
        new("").bump(),
        Err(error(ErrorKind::LexError, 0, Expected::Token, Found::EndOfInput))
    );
    assert_eq!(
        new("a").skip_next_ch(&';'),
        Err(error(ErrorKind::StructuralParseError, 0, Expected::Char(';'), Found::Char('a')))
    );
    let mut parser = new(";x");
    assert_eq!(parser.skip_next_ch(&';'), Ok(()));
    parser.next();
    assert_eq!(parser.position(), 2);
}

#[test]
fn numbers_are_decimal_literals() {
    assert!(Number::new("10").is_some());
    assert!(Number::new("10.").is_some());
    assert!(Number::new("0.5").is_some());
    assert!(Number::new("").is_none());
    assert!(Number::new(".5").is_none());
    assert!(Number::new("1.2.3").is_none());
    assert!(Number::new("1e3").is_none());
    assert_eq!(Number::new("0.5").unwrap().as_str(), "0.5");
    assert_eq!(Number::new("7").unwrap().clone(), Number::new("7").unwrap());
}

#[test]
fn an_empty_stylesheet_has_no_rules() {
    assert_eq!(new("").parse(), Ok(StyleSheet::new(vec![])));
    assert_eq!(new(" \n\t ").parse(), Ok(StyleSheet::new(vec![])));
}
