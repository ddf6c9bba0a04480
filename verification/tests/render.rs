use parser::cssom::DeclarationProperty::{MarginLeft, PaddingBottom, PaddingRight};
use parser::cssom::Unit::{Em, Px};
use parser::cssom::{DeclarationProperty, DeclarationValue, Display, Length, Number, StyleSheet};
use parser::dom::{ElementTagName, Node};
use parser::{DocumentObjectParser, RenderObject, StyleSheetParser};

fn actual(number: f32, unit: parser::cssom::Unit) -> Length {
    Length::Actual(Number::new(&format!("{}", number)).unwrap(), unit)
}

fn tags(tree: &RenderObject, out: &mut Vec<String>) {
    out.push(tree.node.name());
    for child in tree.children.iter() {
        tags(child, out);
    }
}

#[test]
fn test_test_new() {
    let html = r#"
<html>
<head>
    <title>Example Domain</title>

    <meta charset="utf-8" />
    <meta http-equiv="Content-type" content="text/html; charset=utf-8" />
    <meta name="viewport" content="width=device-width, initial-scale=1" />
    <script>console.log("Hello")</script>
    <style type="text/css">
    </style>
</head>

<body>
<div>
    <h1>Example Domain</h1>
    <p>This domain is for use in illustrative examples in documents. You may use this
    domain in literature without prior coordination or asking for permission.</p>
    <p><a href="https://www.iana.org/domains/example">More information...</a></p>
</div>
</body>
</html>
"#;
    let css = r#"
body {
    background-color: #f0f0f2;
    margin: 0;
    padding: 0;
}
div {
    width: 600px;
    margin: 5em auto;
    padding: 2em;
    background-color: #fdfdff;
    border-radius: 0.5em;
}
"#;

    let dom = DocumentObjectParser::new(html).parse().unwrap();
    let css = StyleSheetParser::new(css).parse().unwrap();
    let render_tree = RenderObject::new(&dom, &css);

    println!("\n{}", render_tree.pretty_print(0));
    let mut names = vec![];
    tags(&render_tree, &mut names);
    assert_eq!(
        names,
        vec!["html", "head", "title", "", "style", "", "body", "div", "h1", "", "p", "", "p", "a", ""]
    );
}

#[test]
fn test_lookup_length() {
    let dom = DocumentObjectParser::new(r#"<div />"#).parse().unwrap();
    let css = StyleSheetParser::new(r#"div { margin: 10em; padding-right: 3px; }"#)
        .parse()
        .unwrap();
    let tree = RenderObject::new(&dom, &css);

    let tests = vec![
        (MarginLeft, Some(actual(10.0, Em))),
        (PaddingRight, Some(actual(3.0, Px))),
        (PaddingBottom, None),
    ];
    for (prop, length) in tests {
        assert_eq!(tree.lookup_length(&prop), length);
    }
}

fn build_from(html: &'static str, css: &'static str) -> (Node, StyleSheet) {
    (
        DocumentObjectParser::new(html).parse().unwrap(),
        StyleSheetParser::new(css).parse().unwrap(),
    )
}

#[test]
fn an_element_without_display_is_not_built() {
    let (dom, css) = build_from("<div><p>x</p></div>", "div{display:none;}");
    assert!(RenderObject::build(&dom, &css).is_none());
}

#[test]
fn what_is_inside_a_hidden_element_is_not_built() {
    let (dom, css) = build_from(
        "<div><p id=\"a\"><h1>x</h1></p><p>y</p></div>",
        "h1 { color: #000000; } #a { display: none; } p { width: 1px; }",
    );
    let tree = RenderObject::build(&dom, &css).unwrap();
    let mut names = vec![];
    tags(&tree, &mut names);
    assert_eq!(names, vec!["div", "p", ""]);
    assert_eq!(tree.children.len(), 1);
    assert_eq!(tree.children[0].lookup_length(&DeclarationProperty::Width), Some(actual(1.0, Px)));
}

#[test]
fn meta_and_script_are_never_built() {
    let sheets = vec!["", "meta { display: block; }", "meta, script { width: 1px; display: flex; }"];
    for css in sheets {
        let (dom, css) = build_from("<meta charset=\"utf-8\" />", css);
        assert!(RenderObject::build(&dom, &css).is_none());
        let (dom, css) = build_from(
            "<head><meta charset=\"utf-8\" /><script>x</script><title>t</title></head>",
            "",
        );
        let tree = RenderObject::build(&dom, &css).unwrap();
        let mut names = vec![];
        tags(&tree, &mut names);
        assert_eq!(names, vec!["head", "title", ""]);
        assert!(css.rules.is_empty());
    }
}

#[test]
fn other_nodes_are_built_without_styles() {
    let (dom, css) = build_from("<!-- c -->", "div { width: 1px; }");
    let tree = RenderObject::build(&dom, &css).unwrap();
    assert!(tree.styles.is_empty());
    assert!(tree.children.is_empty());
    assert_eq!(tree.node, &Node::Comment("c ".to_string()));
    assert_eq!(tree.pretty_print(2), "\n");
    let text = Node::Text("t".to_string());
    assert_eq!(RenderObject::new(&text, &css).pretty_print(2), "  t\n");
}

#[test]
fn every_element_carries_its_own_styles() {
    let (dom, css) = build_from(
        "<div class=\"a\"><p>x</p></div>",
        "div { display: flex; } p { display: inline; width: auto; } .a { height: 2px; }",
    );
    let tree = RenderObject::new(&dom, &css);
    assert_eq!(tree.get_display(), Display::Flex);
    assert_eq!(
        tree.value(&DeclarationProperty::Display),
        Some(&DeclarationValue::Display(Display::Flex))
    );
    assert_eq!(tree.lookup_length(&DeclarationProperty::Height), Some(actual(2.0, Px)));
    assert_eq!(tree.value(&DeclarationProperty::Width), None);
    let p = &tree.children[0];
    assert_eq!(p.get_display(), Display::Inline);
    assert_eq!(p.lookup_length(&DeclarationProperty::Width), Some(Length::Auto));
    assert_eq!(p.lookup_length(&DeclarationProperty::Display), None);
    assert_eq!(p.children[0].get_display(), Display::Block);
    assert_eq!(
        tree.pretty_print(0),
        "<div styles={display: flex, height: 2px}>\n  <p styles={display: inline, width: auto}>\n    x\n  </p>\n</div>\n"
    );
    assert!(matches!(tree.node, Node::Element(e) if e.tag_name == ElementTagName::Div));
}

#[test]
fn the_stylesheet_of_a_document_styles_the_document() {
    let dom = DocumentObjectParser::new(
        "<html><head><style>p { display: none; } body { margin: 1em 2px; }</style></head><body><p>gone</p><h1>kept</h1></body></html>",
    )
    .parse()
    .unwrap();
    let css = StyleSheetParser::new(dom.extract_style().as_str()).parse().unwrap();
    let tree = RenderObject::new(&dom, &css);
    let mut names = vec![];
    tags(&tree, &mut names);
    assert_eq!(names, vec!["html", "head", "style", "", "body", "h1", ""]);
    let body = &tree.children[1];
    assert_eq!(body.lookup_length(&DeclarationProperty::MarginTop), Some(actual(1.0, Em)));
    assert_eq!(body.lookup_length(&DeclarationProperty::MarginLeft), Some(actual(2.0, Px)));
}
