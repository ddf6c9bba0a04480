use parser::error::ErrorKind::{LexError, StructuralParseError};
use parser::error::{ErrorKind, Expected, Found, ParseError};
use parser::html::dom::{DOMParser, Node, NodeType};
use parser::html::lexer::Lexer;
use parser::html::token::{Attributes, ElementData, Token};

fn from_vec(attributes: Vec<(String, String)>) -> Attributes {
    Attributes::from_iter(attributes)
}

fn pair(key: &str, value: &str) -> (String, String) {
    (key.to_string(), value.to_string())
}

fn error(kind: ErrorKind, offset: usize, expected: Expected, found: Found) -> ParseError {
    ParseError { kind, offset, expected, found }
}

#[test]
fn test_next_token() {
    let input = r#"
<html>
    <meta content="html" />
    <div
        className="table"
        id="names">
        <p>Hello</p>
        <p>World</p>
    </div>
</html>
"#;
    let mut lexer = Lexer::new(input);
    let expects = vec![
        Token::StartTagToken(ElementData::new("html".to_string(), from_vec(vec![]))),
        Token::SelfClosingTagToken(ElementData::new(
            "meta".to_string(),
            from_vec(vec![("content".to_string(), "html".to_string())]),
        )),
        Token::StartTagToken(ElementData::new(
            "div".to_string(),
            from_vec(vec![
                ("className".to_string(), "table".to_string()),
                ("id".to_string(), "names".to_string()),
            ]),
        )),
        Token::StartTagToken(ElementData::new("p".to_string(), from_vec(vec![]))),
        Token::TextToken("Hello".to_string()),
        Token::EndTagToken("p".to_string()),
        Token::StartTagToken(ElementData::new("p".to_string(), from_vec(vec![]))),
        Token::TextToken("World".to_string()),
        Token::EndTagToken("p".to_string()),
        Token::EndTagToken("div".to_string()),
        Token::EndTagToken("html".to_string()),
    ];
    for expect in expects {
        let token = lexer.next_token().unwrap();
        assert_eq!(token, expect);
    }
}

#[test]
fn test_eof() {
    let input = "";
    let mut lexer = Lexer::new(input);
    assert_eq!(lexer.next_token(), Ok(Token::Eof));
}

#[test]
fn mod_test_consume_text() {
    let input = r#"Hello world

はろーわーるど"#;
    let mut lexer = Lexer::new(input);
    // The blank space inside a text, line ends too, is collapsed.
    assert_eq!(
        lexer.next_token(),
        Ok(Token::TextToken("Hello world はろーわーるど".to_string()))
    );
    assert_eq!(lexer.next_token(), Ok(Token::Eof));
    assert_eq!(
        Lexer::new("a  b \n<p>").next_token(),
        Ok(Token::TextToken("a b".to_string()))
    );
}

#[test]
fn test_consume_start_tag() {
    let input = "\n<>\n<div  \n    className=\"table\"  \n    id=\"names\"\n>\n<a href=\"https://example.com\">\n";
    let mut lexer = Lexer::new(input);
    let attr = Attributes::new();
    let expects = vec![
        Token::StartTagToken(ElementData::new("div".to_string(), attr)),
        Token::StartTagToken(ElementData::new(
            "div".to_string(),
            from_vec(vec![
                ("className".to_string(), "table".to_string()),
                ("id".to_string(), "names".to_string()),
            ]),
        )),
        Token::StartTagToken(ElementData::new(
            "a".to_string(),
            from_vec(vec![(
                "href".to_string(),
                "https://example.com".to_string(),
            )]),
        )),
        Token::Eof,
    ];
    for expect in expects {
        let token = lexer.next_token().unwrap();
        assert_eq!(token, expect);
    }
}

#[test]
fn test_consume_self_closing_tag() {
    let input = "\n<div  \n    className=\"table\"  \n    id=\"names\" \n/>\n<a href=\"https://example.com\" />\n";
    let mut lexer = Lexer::new(input);
    let expects = vec![
        Token::SelfClosingTagToken(ElementData::new(
            "div".to_string(),
            from_vec(vec![
                ("className".to_string(), "table".to_string()),
                ("id".to_string(), "names".to_string()),
            ]),
        )),
        Token::SelfClosingTagToken(ElementData::new(
            "a".to_string(),
            from_vec(vec![(
                "href".to_string(),
                "https://example.com".to_string(),
            )]),
        )),
        Token::Eof,
    ];
    for expect in expects {
        let token = lexer.next_token().unwrap();
        assert_eq!(token, expect);
    }
}

#[test]
fn test_consume_end_tag() {
    let input = r#"
</>
</div >
</div>
"#;
    let mut lexer = Lexer::new(input);
    let expects = vec![
        Token::EndTagToken("div".to_string()),
        Token::EndTagToken("div".to_string()),
        Token::EndTagToken("div".to_string()),
        Token::Eof,
    ];
    for expect in expects {
        let token = lexer.next_token().unwrap();
        assert_eq!(token, expect);
    }
}

#[test]
fn test_consume_comment() {
    let input = r#"
<!-- TODO: implement -->
"#;
    let mut lexer = Lexer::new(input);
    let expects = vec![
        Token::CommentToken(" TODO: implement ".to_string()),
        Token::Eof,
    ];
    for expect in expects {
        let token = lexer.next_token().unwrap();
        assert_eq!(token, expect);
    }
}

#[test]
fn test_text_token() {
    let token = Token::TextToken("Hello, world".to_string());
    assert_eq!(token.to_string(), "Hello, world".to_string());
}

#[test]
fn test_start_tag_token() {
    let tag_name = String::from("div");
    let mut attributes = Attributes::new();
    attributes.insert("id".to_string(), "names".to_string());
    attributes.insert("className".to_string(), "table".to_string());
    let token = Token::StartTagToken(ElementData {
        tag_name,
        attributes,
    });
    assert_eq!(
        token.to_string(),
        r#"<div className="table" id="names">"#
    );
}

#[test]
fn test_end_tag_token() {
    let token = Token::EndTagToken("div".to_string());
    assert_eq!(token.to_string(), "</div>".to_string());
}

#[test]
fn test_self_closing_tag_token() {
    let tag_name = String::from("a");
    let mut attributes = Attributes::new();
    attributes.insert("href".to_string(), "https://example.com".to_string());
    let token = Token::SelfClosingTagToken(ElementData {
        tag_name,
        attributes,
    });
    assert_eq!(
        token.to_string(),
        r#"<a href="https://example.com" />"#.to_string()
    );
}

#[test]
fn test_comment() {
    let token = Token::CommentToken("TODO: implement table".to_string());
    assert_eq!(
        token.to_string(),
        "<!-- TODO: implement table -->".to_string()
    );
}

fn leaf(node_type: NodeType) -> Node {
    Node::new(node_type)
}

fn html_element(name: &str, attributes: Vec<(String, String)>, children: Vec<Node>) -> Node {
    Node {
        node_type: NodeType::Element(ElementData::new(name.to_string(), from_vec(attributes))),
        children,
    }
}

#[test]
fn mod_test_parse() {
    let input = r#"
<html>
    <meta content="html" />
    <div
        className='table'
        id="names">
        <p>Hello</p>
        <p>World</p>
        <!--TODO: implement table-->
    </div>
</html>
"#;
    // An attribute value stands between double quotes, so the lexer stops at
    // the single quote.
    let quote = input.find('\'').unwrap();
    assert_eq!(
        Lexer::new(input).tokens(),
        Err(error(StructuralParseError, quote, Expected::Char('"'), Found::Char('\'')))
    );

    let input = input.replace('\'', "\"");
    let tokens = Lexer::new(input.as_str()).tokens().unwrap();
    let mut parser = DOMParser::new(&tokens);
    let dom = parser.parse();
    let expect = Node {
        node_type: NodeType::Element(ElementData::new("html".to_string(), Attributes::new())),
        children: vec![
            Node {
                node_type: NodeType::Element(ElementData::new(
                    "meta".to_string(),
                    from_vec(vec![("content".to_string(), "html".to_string())]),
                )),
                children: vec![],
            },
            Node {
                node_type: NodeType::Element(ElementData::new(
                    "div".to_string(),
                    from_vec(vec![
                        ("className".to_string(), "table".to_string()),
                        ("id".to_string(), "names".to_string()),
                    ]),
                )),
                children: vec![
                    Node {
                        node_type: NodeType::Element(ElementData::new(
                            "p".to_string(),
                            Attributes::new(),
                        )),
                        children: vec![Node::new(NodeType::Text("Hello".to_string()))],
                    },
                    Node {
                        node_type: NodeType::Element(ElementData::new(
                            "p".to_string(),
                            Attributes::new(),
                        )),
                        children: vec![Node::new(NodeType::Text("World".to_string()))],
                    },
                    Node::new(NodeType::Comment("TODO: implement table".to_string())),
                ],
            },
        ],
    };
    println!("{}", expect.to_string(0));
    assert_eq!(dom, Ok(vec![expect]));
}

#[test]
fn trees_are_written_with_their_children_set_in() {
    let tree = html_element(
        "p",
        vec![pair("id", "x")],
        vec![
            leaf(NodeType::Text("Hi".to_string())),
            leaf(NodeType::Comment("c".to_string())),
        ],
    );
    assert_eq!(
        tree.to_string(1),
        " <p id=\"x\">\n   Hi\n\n   <!--c-->\n <p id=\"x\"/>"
    );
    assert_eq!(leaf(NodeType::Text("t".to_string())).to_string(0), "t");
}

#[test]
fn a_document_may_hold_several_trees() {
    let tokens = Lexer::new("<p>a</p> b <br />").tokens().unwrap();
    assert_eq!(tokens.len(), 6);
    assert_eq!(tokens.last(), Some(&Token::Eof));
    let dom = DOMParser::new(&tokens).parse().unwrap();
    assert_eq!(dom.len(), 3);
    assert_eq!(dom[1], leaf(NodeType::Text("b".to_string())));
    assert_eq!(dom[2], html_element("br", vec![], vec![]));
}

#[test]
fn the_tree_builder_needs_matching_end_tags() {
    let build = |input: &str| {
        let tokens = Lexer::new(input).tokens().unwrap();
        DOMParser::new(&tokens).parse()
    };
    assert_eq!(
        build("<div></p>"),
        Err(error(StructuralParseError, 1, Expected::Node, Found::EndTagToken))
    );
    assert_eq!(
        build("</div>"),
        Err(error(StructuralParseError, 0, Expected::Node, Found::EndTagToken))
    );
    assert_eq!(
        build("<div>x"),
        Err(error(StructuralParseError, 2, Expected::Node, Found::EofToken))
    );
    assert_eq!(
        build("<div> ?"),
        Err(error(LexError, 1, Expected::Node, Found::IllegalToken))
    );
    let tokens = vec![Token::TextToken("x".to_string())];
    assert_eq!(
        DOMParser::new(&tokens).parse(),
        Err(error(StructuralParseError, 1, Expected::Node, Found::EndOfInput))
    );
    let tokens = vec![Token::StartTagToken(ElementData::new("p".to_string(), Attributes::new()))];
    assert_eq!(
        DOMParser::new(&tokens).parse(),
        Err(error(StructuralParseError, 1, Expected::EndTag, Found::EndOfInput))
    );
    let tokens = vec![Token::Eof];
    let mut parser = DOMParser::new(&tokens);
    assert!(parser.next_token_is(&Token::Eof));
    assert!(!parser.next_token_is(&Token::Illegal));
    assert_eq!(parser.parse(), Ok(vec![]));
}

#[test]
fn a_place_where_no_token_starts_is_marked() {
    let mut lexer = Lexer::new("  ? x");
    assert_eq!(lexer.next_token(), Ok(Token::Illegal));
    assert_eq!(lexer.next_token(), Ok(Token::Illegal));
    assert_eq!(
        Lexer::new("a ?").tokens(),
        Ok(vec![Token::TextToken("a".to_string()), Token::Illegal])
    );
    assert_eq!(Token::Illegal.to_string(), "");
    assert_eq!(Token::Eof.to_string(), "");
}

#[test]
fn the_lexer_reports_what_it_cannot_read() {
    assert_eq!(
        Lexer::new("< div>").next_token(),
        Err(error(LexError, 1, Expected::Token, Found::Char(' ')))
    );
    assert_eq!(
        Lexer::new("<").next_token(),
        Err(error(LexError, 1, Expected::Token, Found::EndOfInput))
    );
    assert_eq!(
        Lexer::new("<div id='x'>").next_token(),
        Err(error(StructuralParseError, 8, Expected::Char('"'), Found::Char('\'')))
    );
    assert_eq!(
        Lexer::new("<div id>").next_token(),
        Err(error(StructuralParseError, 7, Expected::Char('='), Found::Char('>')))
    );
    assert_eq!(
        Lexer::new("<div id=\"x").next_token(),
        Err(error(StructuralParseError, 10, Expected::Char('"'), Found::EndOfInput))
    );
    assert_eq!(
        Lexer::new("<div").next_token(),
        Err(error(StructuralParseError, 4, Expected::Char('>'), Found::EndOfInput))
    );
    assert_eq!(
        Lexer::new("<div /x").next_token(),
        Err(error(StructuralParseError, 6, Expected::Char('>'), Found::Char('x')))
    );
    assert_eq!(
        Lexer::new("<!-x-->").next_token(),
        Err(error(StructuralParseError, 3, Expected::Char('-'), Found::Char('x')))
    );
    assert_eq!(
        Lexer::new("<!--x->").next_token(),
        Err(error(StructuralParseError, 6, Expected::Char('-'), Found::Char('>')))
    );
    assert_eq!(Lexer::new("</p").next_token(), Ok(Token::EndTagToken("p".to_string())));
}

#[test]
fn the_units_of_the_lexer_can_be_read_alone() {
    let mut lexer = Lexer::new("  name1  key=\"v w\"  --c-->yes no?");
    lexer.skip_whitespace();
    assert_eq!(lexer.expect_tag_name(), "name1");
    assert_eq!(lexer.expect_attribute(), Ok(pair("key", "v w")));
    assert_eq!(lexer.expect_comment(), Ok("c".to_string()));
    assert_eq!(lexer.consume_text(), Token::TextToken("yes no".to_string()));
    assert_eq!(lexer.consume(&|c: &char| *c == '?'), "?");
    assert_eq!(
        lexer.skip_next_ch(&'?'),
        Err(error(ErrorKind::StructuralParseError, 33, Expected::Char('?'), Found::EndOfInput))
    );
    assert_eq!(Lexer::new("a=\"1\" b=\"2\" a=\"3\">").expect_attributes(),
        Ok(from_vec(vec![pair("a", "3"), pair("b", "2")])));
}

#[test]
fn tag_attributes_are_kept_in_the_order_of_their_keys() {
    let mut attributes = Attributes::new();
    assert!(attributes.is_empty());
    attributes.insert("b".to_string(), "1".to_string());
    attributes.insert("a".to_string(), "2".to_string());
    attributes.insert("ab".to_string(), "3".to_string());
    attributes.insert("b".to_string(), "4".to_string());
    attributes.insert("".to_string(), "5".to_string());
    assert_eq!(attributes.len(), 4);
    assert_eq!(
        (0..4).map(|i| attributes.key(i)).collect::<Vec<&str>>(),
        vec!["", "a", "ab", "b"]
    );
    assert_eq!(attributes.value(3), "4");
    assert_eq!(attributes.get("ab"), Some("3"));
    assert_eq!(attributes.get("c"), None);
    assert_eq!(attributes.clone(), attributes);
    let data = ElementData::new("p".to_string(), attributes);
    assert!(data.same_as(&data.clone()));
    assert_eq!(data.get_id(), None);
    assert_eq!(data.get_classes(), None);
    assert_eq!(
        Token::element_to_string(&data),
        "p =\"5\" a=\"2\" ab=\"3\" b=\"4\""
    );
    let with_id = ElementData::new("p".to_string(), from_vec(vec![pair("id", "i"), pair("class", "c")]));
    assert_eq!(with_id.get_id(), Some("i"));
    assert_eq!(with_id.get_classes(), Some("c"));
    assert!(!with_id.same_as(&data));
    assert!(Token::EndTagToken("p".to_string()).same_as(&Token::EndTagToken("p".to_string())));
    assert!(!Token::EndTagToken("p".to_string()).same_as(&Token::TextToken("p".to_string())));
}
