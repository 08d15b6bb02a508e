use browser::html::Parser;
use browser::dom;
use browser::scan::ParseError;

#[test]
fn test_basic() {
    let source = String::from("Hello, Parser");
    let mut parser = Parser::new(&source);
    assert_eq!(parser.next_char(), 'H');
    assert_eq!(parser.pos, 0);

    assert_eq!(parser.starts_with("Hell "), false);
    assert_eq!(parser.starts_with("Hell"), true);

    let mut tmp = String::new();
    while !parser.eof() {
        tmp.push(parser.consume_char());
    }
    assert_eq!(parser.pos, tmp.len());
    assert_eq!(parser.input, tmp);
    println!("{}", tmp);
}

#[test]
fn test_parse_tag_name() {
    let mut parser = Parser::new("<html_body>");

    parser.parse_tag_name();
    assert_eq!(parser.pos, 0);

    assert_eq!(parser.consume_char(), '<');
    let tag_name = parser.parse_tag_name();
    assert_eq!(tag_name, "html");
}

#[test]
fn test_parse_all() {
    let content = "<html lang=\"en\" class='all'><!--html_comment--><body><!--body_comment-->fuck</body></html>";
    let html = Parser::new(content).parse().unwrap();

    assert_eq!(html.get_attribute("lang"), Some("en".to_owned()));
    assert_eq!(html.get_attribute("class"), Some("all".to_owned()));
    assert_eq!(html.get_attribute("no_attr"), None);

    let comment = &html.children[0];
    assert_eq!(
        "html_comment",
        if let dom::NodeType::Comment(_comment) = &comment.node_type { _comment } else { "" }
    );

    assert_eq!(
        html.to_text(),
        "<html lang=\"en\" class=\"all\"><!--html_comment--><body><!--body_comment-->fuck</body></html>"
    );
}

#[test]
fn void_tags_self_close() {
    let doc = Parser::new("<head><meta charset=\"utf-8\"/><br/></head>").parse().unwrap();
    assert_eq!(doc.children.len(), 2);
    assert_eq!(doc.to_text(), "<head><meta charset=\"utf-8\"></meta><br></br></head>");
}

#[test]
fn parse_errors() {
    assert_eq!(Parser::new("<div>").parse().unwrap_err(), ParseError::UnexpectedEnd);
    assert_eq!(Parser::new("<div></span>").parse().unwrap_err(), ParseError::UnbalancedTag);
    assert_eq!(Parser::new("<div foo></div>").parse().unwrap_err(), ParseError::MissingAttributeEquals);
    assert_eq!(Parser::new("<div foo=bar></div>").parse().unwrap_err(), ParseError::UnexpectedCharacter);
    assert_eq!(Parser::new("<p><!--never closed").parse().unwrap_err(), ParseError::UnexpectedEnd);
}

#[test]
fn multiple_roots_get_wrapped() {
    let doc = Parser::new("<a></a><b></b>").parse().unwrap();
    match &doc.node_type {
        dom::NodeType::Element(e) => assert_eq!(e.tag_name, "html"),
        _ => panic!("expected an element"),
    }
    assert_eq!(doc.children.len(), 2);
}
