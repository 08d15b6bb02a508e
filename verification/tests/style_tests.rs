use browser::css::{Parser as CssParser, StyleSheet, Value, Color};
use browser::dom::{elem, AttrMap};
use browser::html::Parser as HtmlParser;
use browser::style::{match_rule, matches_simple_selector, selector_matches, specified_values,
    style_tree};

fn sheet(rules_text: &[&str]) -> StyleSheet {
    let mut rules = Vec::new();
    for t in rules_text {
        let mut p = CssParser::new(t);
        rules.push(p.parse_rule().unwrap());
    }
    StyleSheet { rules }
}

fn element(tag: &str, id: Option<&str>, class: Option<&str>) -> browser::dom::ElementData {
    let mut attrs = AttrMap::new();
    if let Some(i) = id {
        attrs.insert("id".to_owned(), i.to_owned());
    }
    if let Some(c) = class {
        attrs.insert("class".to_owned(), c.to_owned());
    }
    browser::dom::ElementData { tag_name: tag.to_owned(), attributes: attrs }
}

#[test]
fn higher_specificity_wins() {
    let ss = sheet(&["p {color: red}", "p.note {color: blue}"]);
    let e = element("p", None, Some("note"));
    let pm = specified_values(&e, &ss);
    assert_eq!(pm.get("color"), Some(Value::Keyword("blue".to_owned())));
}

#[test]
fn later_rule_wins_ties() {
    let ss = sheet(&["p {color: red}", "p {color: green}"]);
    let e = element("p", None, None);
    let pm = specified_values(&e, &ss);
    assert_eq!(pm.get("color"), Some(Value::Keyword("green".to_owned())));
}

#[test]
fn declarations_of_weaker_rules_survive() {
    let ss = sheet(&["* {margin: 4px; color: red}", "#x {color: #010203}"]);
    let e = element("div", Some("x"), None);
    let pm = specified_values(&e, &ss);
    assert_eq!(pm.get("color"), Some(Value::ColorValue(Color { r: 1, g: 2, b: 3, a: 0 })));
    assert_eq!(pm.get("margin"), Some(Value::Length(4, browser::css::Unit::Px)));
    assert_eq!(pm.get("width"), None);
}

#[test]
fn matching_constraints() {
    let ss = sheet(&["h1.foo, div#bar, .baz, * {x: y}"]);
    let rule = &ss.rules[0];
    let elements = [
        element("div", Some("bar"), None),
        element("h1", None, Some("foo")),
        element("span", None, Some("baz")),
        element("p", None, None),
    ];
    // each element yields exactly one matched rule, through its first
    // matching selector in the sorted list
    let expected = [(1, 0, 1), (0, 1, 1), (0, 1, 0), (0, 0, 0)];
    for (e, want) in elements.iter().zip(expected.iter()) {
        assert_eq!(match_rule(e, rule), Some(*want));
    }
    // the universal selector matches every element
    for e in &elements {
        assert!(selector_matches(e, &rule.selectors[3]));
    }
    // and the selectors are sorted div#bar > h1.foo > .baz > *
    assert_eq!(rule.selectors[0].specificity(), (1, 0, 1));
    assert_eq!(rule.selectors[1].specificity(), (0, 1, 1));
    assert_eq!(rule.selectors[2].specificity(), (0, 1, 0));
    assert_eq!(rule.selectors[3].specificity(), (0, 0, 0));
}

#[test]
fn class_lists_are_sets() {
    let mut p = CssParser::new(".a.b {x: y}");
    let rule = p.parse_rule().unwrap();
    let browser::css::Selector::Simple(sel) = &rule.selectors[0];
    let both = element("div", None, Some("b c a"));
    let one = element("div", None, Some("a"));
    let none = element("div", None, None);
    assert!(matches_simple_selector(&both, sel));
    assert!(!matches_simple_selector(&one, sel));
    assert!(!matches_simple_selector(&none, sel));
}

#[test]
fn styled_tree_mirrors_and_is_deterministic() {
    let doc = HtmlParser::new("<div id=\"a\"><p>hi</p><span></span></div>").parse().unwrap();
    let ss = sheet(&["#a {display: block}", "p {color: red}"]);
    let s1 = style_tree(&doc, &ss);
    let s2 = style_tree(&doc, &ss);
    assert_eq!(s1.children.len(), doc.children.len());
    assert_eq!(s1.specified_values.get("display"), Some(Value::Keyword("block".to_owned())));
    assert_eq!(s1.children[0].specified_values.get("color"), Some(Value::Keyword("red".to_owned())));
    assert_eq!(s1.children[0].children.len(), 1);
    // text nodes carry no properties
    assert_eq!(s1.children[0].children[0].specified_values.len(), 0);
    // a second run computes the identical property maps
    assert_eq!(s1.specified_values.get("display"), s2.specified_values.get("display"));
    assert_eq!(s1.children[0].specified_values.get("color"), s2.children[0].specified_values.get("color"));
    assert_eq!(s1.children[1].specified_values.get("color"), s2.children[1].specified_values.get("color"));
}
