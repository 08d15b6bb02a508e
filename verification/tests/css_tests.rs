use browser::css::{Parser, Selector, Value, Color, Unit};
use browser::scan::ParseError;

#[test]
fn test_parse_declaration() {
    // color1: red
    let mut parser = Parser::new("color1: red");
    let declaration = parser.parse_one_declaration().unwrap();
    assert_eq!(declaration.name, "color1");
    assert_eq!(declaration.value, Value::Keyword("red".to_string()));

    // color2: #99A0AB
    let mut parser = Parser::new(" color2: #99A0AB");
    let declaration = parser.parse_one_declaration().unwrap();
    assert_eq!(declaration.name, "color2");
    assert_eq!(declaration.value, Value::ColorValue(Color { r: 0x99, g: 0xA0, b: 0xAB, a: 0 }));

    // color3: rgba(1,2,3,4)
    let mut parser = Parser::new("color3: rgba(1, 2,3 ,4 )");
    let declaration = parser.parse_one_declaration().unwrap();
    assert_eq!(declaration.name, "color3");
    assert_eq!(declaration.value, Value::ColorValue(Color { r: 1, g: 2, b: 3, a: 4 }));

    // padding: 100px
    let mut parser = Parser::new("padding: 100px");
    let declaration = parser.parse_one_declaration().unwrap();
    assert_eq!(declaration.name, "padding");
    assert_eq!(declaration.value, Value::Length(100, Unit::Px));
}

#[test]
fn test_css_parser() {
    let mut parser = Parser::new(
        "h1.que, div#answer, .fuck, * {color: #FFFFFF; width: 10px; display:none; }",
    );
    let res = parser.parse_rule().unwrap();

    assert_eq!(res.selectors.len(), 4);
    assert_eq!(res.declarations.len(), 3);

    let Selector::Simple(selector1) = &res.selectors[0];
    let Selector::Simple(selector2) = &res.selectors[1];
    let Selector::Simple(selector3) = &res.selectors[2];
    let Selector::Simple(selector4) = &res.selectors[3];

    // after sort: first should be "div"
    assert_eq!(selector1.tag_name, Some("div".to_owned()));
    assert_eq!(selector1.id, Some("answer".to_owned()));
    assert_eq!(selector1.class, Vec::<String>::new());

    assert_eq!(selector2.tag_name, Some("h1".to_owned()));
    assert_eq!(selector2.id, None);
    assert_eq!(selector2.class, vec!["que".to_owned()]);

    assert_eq!(selector3.tag_name, None);
    assert_eq!(selector3.id, None);
    assert_eq!(selector3.class, vec!["fuck".to_owned()]);

    assert_eq!(selector4.tag_name, None);
    assert_eq!(selector4.id, None);
    assert_eq!(selector4.class, Vec::<String>::new());

    let declaration1 = &res.declarations[0];
    let declaration2 = &res.declarations[1];
    let declaration3 = &res.declarations[2];

    assert_eq!(declaration1.name, "color");
    assert_eq!(declaration1.value, Value::ColorValue(Color { r: 0xFF, g: 0xFF, b: 0xFF, a: 0 }));

    assert_eq!(declaration2.name, "width");
    assert_eq!(declaration2.value, Value::Length(10, Unit::Px));

    assert_eq!(declaration3.name, "display");
    assert_eq!(declaration3.value, Value::Keyword("none".to_owned()));
}

#[test]
fn color_parsing_forms() {
    assert_eq!(
        Value::parse_as_color("#99A0AB"),
        Some(Color { r: 153, g: 160, b: 171, a: 0 })
    );
    assert_eq!(
        Value::parse_as_color("rgba(1, 2,3 ,4)"),
        Some(Color { r: 1, g: 2, b: 3, a: 4 })
    );
    assert_eq!(Value::parse_as_color("red"), None);
    assert_eq!(Value::parse_as_color("#99A0"), None);
    assert_eq!(Value::parse_as_color("rgba(1,2,3)"), None);
    assert_eq!(Value::parse_as_color("rgba(1,2,3,300)"), None);
}

#[test]
fn length_parsing_forms() {
    assert_eq!(Value::parse_as_length("100px"), Some((100, Unit::Px)));
    assert_eq!(Value::parse_as_length("-4px"), Some((-4, Unit::Px)));
    // an unreadable count falls back to zero, as declaration parsing does
    assert_eq!(Value::parse_as_length("abcpx"), Some((0, Unit::Px)));
    assert_eq!(Value::parse_as_length("100"), None);
    // a digit run too long for the pixel type also falls back to zero
    assert_eq!(Value::parse_as_length("99999999999999999999px"), Some((0, Unit::Px)));
    assert_eq!(Value::Length(7, Unit::Px).to_px(), 7);
    assert_eq!(Value::Keyword("auto".to_owned()).to_px(), 0);
}

#[test]
fn specificity_id_dominates() {
    let mut p = Parser::new("#a, h1.b.c {x: y}");
    let rule = p.parse_rule().unwrap();
    // #a has (1,0,0); h1.b.c has (0,2,1): the id selector sorts first
    assert_eq!(rule.selectors[0].specificity(), (1, 0, 0));
    assert_eq!(rule.selectors[1].specificity(), (0, 2, 1));
}

#[test]
fn selector_errors() {
    let mut p = Parser::new("h1");
    assert_eq!(p.parse_rule().unwrap_err(), ParseError::UnexpectedEnd);
    let mut p2 = Parser::new("h1 @ {x: y}");
    assert_eq!(p2.parse_rule().unwrap_err(), ParseError::UnexpectedCharacter);
    let mut p3 = Parser::new("h1 { x }");
    assert_eq!(p3.parse_rule().unwrap_err(), ParseError::UnexpectedCharacter);
}

#[test]
fn quoted_values_classify() {
    let mut p = Parser::new("x {a: '#FFFFFF'; b: c}");
    let rule = p.parse_rule().unwrap();
    assert_eq!(rule.declarations[0].name, "a");
    // quotes are stripped before the color reading is tried
    assert_eq!(
        rule.declarations[0].value,
        Value::ColorValue(Color { r: 0xFF, g: 0xFF, b: 0xFF, a: 0 })
    );
    assert_eq!(rule.declarations[1].value, Value::Keyword("c".to_owned()));
    // an empty value is an empty keyword
    let mut p2 = Parser::new("x {a:}");
    let rule2 = p2.parse_rule().unwrap();
    assert_eq!(rule2.declarations[0].value, Value::Keyword(String::new()));
}
