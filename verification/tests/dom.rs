use parser::cssom::parser::StyleSheetParser;
use parser::dom::attributes::ElementAttributes;
use parser::dom::parser::{collapse_whitespace, DocumentObjectParser};
use parser::dom::ElementTagName::{Div, Html, Main, Head, Other, H1, H2, H3, P};
use parser::dom::{Element, ElementTagName, Node, NodeKey};
use parser::error::ErrorKind::{LexError, StructuralParseError};
use parser::error::{ErrorKind, Expected, Found, ParseError};

fn new(input: &'static str) -> DocumentObjectParser {
    DocumentObjectParser::new(input)
}

fn text(s: &str) -> Node {
    Node::Text(s.to_string())
}

fn element(tag_name: ElementTagName, attrs: Vec<(NodeKey, &str)>, children: Vec<Node>) -> Node {
    let pairs = attrs.into_iter().map(|(k, v)| (k, v.to_string())).collect();
    Node::Element(Element::new(tag_name, ElementAttributes::from_iter(pairs), children))
}

fn error(kind: ErrorKind, offset: usize, expected: Expected, found: Found) -> ParseError {
    ParseError { kind, offset, expected, found }
}

#[test]
fn test_parse_node() {
    let input = r#"
<div class = "name"   id =  "note"  >
    Hello
    <div id="space" />
    <p onClick="console.log(0)">World</p>
    <!-- TODO: Implement Here -->
</div>"#;
    let node = new(input).parse_node();
    println!("{:?}", node);
    assert_eq!(
        node,
        Ok(element(
            Div,
            vec![(NodeKey::Id, "note"), (NodeKey::Class, "name")],
            vec![
                text("Hello"),
                element(Div, vec![(NodeKey::Id, "space")], vec![]),
                element(
                    P,
                    vec![(NodeKey::Other("onClick".to_string()), "console.log(0)")],
                    vec![text("World")],
                ),
                Node::Comment("TODO: Implement Here ".to_string()),
            ],
        ))
    );
}

#[test]
fn test_parse_tag() {
    let tests = vec![("div ", Div), ("html ", Html), ("h1 ", H1)];
    for (input, expect) in tests {
        assert_eq!(new(input).parse_element_tag(), expect);
    }
}

#[test]
fn test_test_consume_text() {
    let input = r#"
Merry Christmas
Mr. Lawrence.
"#;
    assert_eq!(
        new(input).consume_text(),
        String::from("Merry Christmas Mr. Lawrence.")
    );
}

#[test]
fn test_test_consume_for() {
    assert_eq!(
        StyleSheetParser::new("h1h2").consume_for(&|ch: &char| ch.is_ascii_alphanumeric(), 2),
        "h1".to_string(),
    );
    let tests = vec![("ab-cde", "ab", '-'), ("abcde", "abcd", 'e')];
    for (input, expect, next) in tests {
        let mut parser = new(input);
        assert_eq!(
            parser.consume_for(&|ch: &char| ch.is_alphanumeric(), 4),
            String::from(expect),
        );
        assert_eq!(parser.skip_next_ch(&next), Ok(()));
    }
}

#[test]
fn test() {
    let input = r#"abcdef"#;
    let mut p = input.chars().peekable();
    let mut s = p.by_ref().take(2);
    println!("{:?}", &s.next());
    println!("{:?}", &s.next());
    println!("{:?}", &s.next());
    println!("{:?}", &p.next());
    println!("{:?}", &p.next());
    println!("{:?}", &p.next());
}

#[test]
fn test_parse_element_attributes() {
    let tests = vec![(
        r#"id="name""#,
        ElementAttributes::from_iter(vec![(NodeKey::Id, "name".to_string())]),
    )];
    for (input, expected) in tests {
        assert_eq!(new(input).parse_element_attributes(), Ok(expected));
    }
}

#[test]
fn test_node_key_from() {
    let tests = vec![
        ("id", NodeKey::Id),
        ("class", NodeKey::Class),
        ("href", NodeKey::Other("href".to_string())),
    ];
    for (input, expected) in tests {
        assert_eq!(NodeKey::from(input), expected);
    }
}

#[test]
fn test_element_tag_name_from() {
    let tests = vec![
        ("html", Html),
        ("main", Main),
        ("head", Head),
        ("div", Div),
        ("p", P),
        ("h1", H1),
        ("h2", H2),
        ("h3", H3),
        ("other", Other("other".to_string())),
    ];
    for (input, expected) in tests {
        assert_eq!(ElementTagName::from(input), expected);
    }
}

#[test]
fn all_known_tags_have_their_names() {
    let names = vec![
        "html", "main", "div", "head", "meta", "body", "title", "script", "style", "p", "h1",
        "h2", "h3", "a",
    ];
    for name in names {
        let tag = ElementTagName::from(name);
        assert!(!matches!(tag, Other(_)));
        assert_eq!(tag.to_string(), name);
        assert!(tag.same_as(&ElementTagName::from(name)));
    }
    assert_eq!(ElementTagName::Article.to_string(), "article");
    assert_eq!(ElementTagName::from("article"), ElementTagName::Article);
    assert_eq!(ElementTagName::from("Div"), Other("Div".to_string()));
    assert_eq!(Other("Span".to_string()).to_string(), "Span");
    assert!(!Div.same_as(&P));
    assert!(Other("x".to_string()).same_as(&Other("x".to_string())));
    assert!(!Other("x".to_string()).same_as(&Other("y".to_string())));
}

#[test]
fn whitespace_in_text_is_collapsed() {
    assert_eq!(collapse_whitespace("a  b"), "a b");
    assert_eq!(collapse_whitespace("  a \n\t b  \n"), "a b");
    assert_eq!(collapse_whitespace(""), "");
    assert_eq!(collapse_whitespace(" \n "), "");
    assert_eq!(new("one\n\n   two   <").consume_text(), "one two");
}

#[test]
fn a_document_is_one_tree() {
    let node = new("<div><p>x</p></div>").parse();
    assert_eq!(node, Ok(element(Div, vec![], vec![element(P, vec![], vec![text("x")])])));
    assert_eq!(new(" just text ").parse(), Ok(text("just text")));
    assert_eq!(
        new("<!-- note -->").parse(),
        Ok(Node::Comment("note ".to_string()))
    );
}

#[test]
fn tags_without_content_have_no_children() {
    assert_eq!(new("<div />").parse(), Ok(element(Div, vec![], vec![])));
    assert_eq!(
        new(r#"<meta charset="utf-8" />"#).parse(),
        Ok(element(
            ElementTagName::Meta,
            vec![(NodeKey::Other("charset".to_string()), "utf-8")],
            vec![],
        ))
    );
}

#[test]
fn a_later_attribute_overwrites_an_earlier_one() {
    assert_eq!(
        new(r#"<p id="a" class="c" id="b"></p>"#).parse(),
        Ok(element(P, vec![(NodeKey::Class, "c"), (NodeKey::Id, "b")], vec![]))
    );
}

#[test]
fn the_text_of_a_style_element_is_kept_as_it_stands() {
    let css = "\n  p > a {  color: #ff0000; }\n";
    let dom = DocumentObjectParser::new("<html><head><style type=\"text/css\">\n  p > a {  color: #ff0000; }\n</style></head><body /></html>")
        .parse()
        .unwrap();
    assert_eq!(dom.extract_style(), css);
    assert_eq!(dom.name(), "html");
    let style = dom.find_style().unwrap();
    assert!(style.is_style());
    assert_eq!(style.children, vec![Node::Style(css.to_string())]);
    assert_eq!(
        style.get_value_by_name(&NodeKey::Other("type".to_string())),
        Some("text/css")
    );
    assert_eq!(text("x").name(), "");
    assert!(text("x").find_style().is_none());
    assert!(new("<style />").parse().unwrap().find_style().is_none());
    assert!(new("<div><p>x</p></div>").parse().unwrap().find_style().is_none());
}

#[test]
fn elements_give_their_id_and_classes() {
    let dom = new(r#"<a id="x" class="y z" href="u"></a>"#).parse().unwrap();
    match dom {
        Node::Element(e) => {
            assert_eq!(e.get_id(), Some("x"));
            assert_eq!(e.get_classes(), Some("y z"));
            assert_eq!(e.get_value_by_name(&NodeKey::Href), None);
            assert_eq!(e.get_value_by_name(&NodeKey::Other("href".to_string())), Some("u"));
            assert_eq!(e.attributes.len(), 3);
            assert!(!e.is_style());
        }
        _ => panic!("an element was expected"),
    }
}

#[test]
fn structural_errors_stop_the_parse() {
    assert_eq!(
        new("</div>").parse(),
        Err(error(StructuralParseError, 0, Expected::Node, Found::Char('<')))
    );
    assert_eq!(new("</div>").parse_node(), Ok(Node::EndTag));
    assert_eq!(
        new("<div><p>x</p>").parse(),
        Err(error(StructuralParseError, 13, Expected::Node, Found::EndOfInput))
    );
    assert_eq!(
        new("").parse(),
        Err(error(StructuralParseError, 0, Expected::Node, Found::EndOfInput))
    );
    assert_eq!(
        new("<div").parse(),
        Err(error(StructuralParseError, 4, Expected::Char('>'), Found::EndOfInput))
    );
    assert_eq!(
        new("<div id>").parse(),
        Err(error(StructuralParseError, 7, Expected::Char('='), Found::Char('>')))
    );
    assert_eq!(
        new("<div id=x>").parse(),
        Err(error(StructuralParseError, 8, Expected::Char('"'), Found::Char('x')))
    );
    assert_eq!(
        new("<div / >").parse(),
        Err(error(StructuralParseError, 6, Expected::Char('>'), Found::Char(' ')))
    );
    assert_eq!(
        new("<div =>").parse(),
        Err(error(StructuralParseError, 5, Expected::Char('>'), Found::Char('=')))
    );
    assert_eq!(
        new("<!- x -->").parse(),
        Err(error(StructuralParseError, 3, Expected::Char('-'), Found::Char(' ')))
    );
    assert_eq!(
        new("<style>a<b></b></style>").parse(),
        Err(error(StructuralParseError, 8, Expected::EndTag, Found::Char('<')))
    );
    assert_eq!(
        new("<div></div").parse(),
        Err(error(StructuralParseError, 10, Expected::Char('>'), Found::EndOfInput))
    );
    assert_eq!(
        new("< 1>").parse(),
        Err(error(LexError, 2, Expected::Node, Found::Char('1')))
    );
    assert_eq!(
        new("<").parse(),
        Err(error(LexError, 1, Expected::Node, Found::EndOfInput))
    );
    assert_eq!(
        new("<div>a > b</div>").parse(),
        Err(error(LexError, 7, Expected::Node, Found::Char('>')))
    );
    assert_eq!(
        new("1").parse_element(),
        Err(error(LexError, 0, Expected::Node, Found::Char('1')))
    );
}

#[test]
fn the_units_of_the_grammar_can_be_read_alone() {
    let mut parser = new(r#" "a b"  x<!-- c -->/ rest>"#);
    assert_eq!(parser.consume_string(), Ok("a b".to_string()));
    assert_eq!(parser.peek(), Some('x'));
    assert_eq!(parser.bump(), Ok(()));
    assert_eq!(parser.bump(), Ok(()));
    assert_eq!(parser.parse_comment(), Ok("c ".to_string()));
    assert_eq!(parser.skip_next_end_tag(), Ok(()));
    assert_eq!(parser.position(), 26);
    assert_eq!(
        parser.bump(),
        Err(error(ErrorKind::LexError, 26, Expected::Token, Found::EndOfInput))
    );
    let mut parser = new("  ab-c_1 =");
    parser.skip_whitespace();
    assert_eq!(parser.position(), 2);
    assert_eq!(parser.consume_identifier(), "ab-c_1");
    assert_eq!(parser.skip_next_str("=="),
        Err(error(ErrorKind::StructuralParseError, 10, Expected::Char('='), Found::EndOfInput)));
    let mut parser = new("abc");
    assert_eq!(parser.consume(&|c: &char| *c != 'c'), "ab");
    assert_eq!(parser.skip_next_str("c"), Ok(()));
    assert_eq!(new("<p>x</p></div>").parse_children().map(|v| v.len()), Ok(1));
}

#[test]
fn attributes_are_kept_in_the_order_of_their_keys() {
    let mut one = ElementAttributes::new();
    one.insert(NodeKey::Other("b".to_string()), "1".to_string());
    one.insert(NodeKey::Class, "2".to_string());
    one.insert(NodeKey::Other("a".to_string()), "3".to_string());
    one.insert(NodeKey::Id, "4".to_string());
    one.insert(NodeKey::Other("ab".to_string()), "5".to_string());
    one.insert(NodeKey::Class, "6".to_string());
    let two = ElementAttributes::from_iter(vec![
        (NodeKey::Class, "6".to_string()),
        (NodeKey::Other("ab".to_string()), "5".to_string()),
        (NodeKey::Id, "0".to_string()),
        (NodeKey::Other("a".to_string()), "3".to_string()),
        (NodeKey::Other("b".to_string()), "1".to_string()),
        (NodeKey::Id, "4".to_string()),
    ]);
    assert_eq!(one, two);
    assert_eq!(one.len(), 5);
    assert_eq!(one.get(&NodeKey::Class), Some("6"));
    assert_eq!(one.get(&NodeKey::Href), None);
    assert_eq!(one.get(&NodeKey::Other("ab".to_string())), Some("5"));
    assert_eq!(ElementAttributes::new().len(), 0);
}
