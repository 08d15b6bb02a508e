use browser::dom::{elem, text, comment, AttrMap, NodeType};

#[test]
fn test_dom() {
    //<html><body>hello<!-- comment --></body></html>
    let mut html = elem("html".to_owned(), AttrMap::new(), Vec::new());
    let mut body = elem("body".to_owned(), AttrMap::new(), Vec::new());
    body.append_child(text("hello".to_owned()));
    body.append_child(comment(" comment ".to_owned()));
    html.append_child(body);

    assert_eq!(html.children.len(), 1);
    assert_eq!(html.children[0].children.len(), 2);
}

#[test]
fn attributes_replace_and_keep_order() {
    let mut attrs = AttrMap::new();
    attrs.insert("a".to_owned(), "1".to_owned());
    attrs.insert("b".to_owned(), "2".to_owned());
    attrs.insert("a".to_owned(), "3".to_owned());
    assert_eq!(attrs.len(), 2);
    assert_eq!(attrs.get("a"), Some("3".to_owned()));
    assert_eq!(attrs.get("b"), Some("2".to_owned()));
    assert_eq!(attrs.get("c"), None);
    // replacement keeps the original position of the key
    assert_eq!(attrs.pair_at(0), ("a".to_owned(), "3".to_owned()));
}

#[test]
fn get_attribute_and_node_kinds() {
    let mut attrs = AttrMap::new();
    attrs.insert("id".to_owned(), "x".to_owned());
    let mut e = elem("p".to_owned(), attrs, Vec::new());
    assert_eq!(e.get_attribute("id"), Some("x".to_owned()));
    assert_eq!(e.get_attribute("class"), None);
    e.add_attributes("class".to_owned(), "a b".to_owned());
    assert_eq!(e.get_attribute("class"), Some("a b".to_owned()));
    let t = text("hi".to_owned());
    assert_eq!(t.get_attribute("id"), None);
    match &e.node_type {
        NodeType::Element(ed) => {
            assert_eq!(ed.id(), Some("x".to_owned()));
            assert_eq!(ed.classes(), vec!["a".to_owned(), "b".to_owned()]);
        },
        _ => panic!("expected an element"),
    }
}

#[test]
fn render_round() {
    let mut attrs = AttrMap::new();
    attrs.insert("id".to_owned(), "x".to_owned());
    let mut root = elem("div".to_owned(), attrs, Vec::new());
    root.append_child(text("hey".to_owned()));
    root.append_child(comment("c".to_owned()));
    assert_eq!(root.to_text(), "<div id=\"x\">hey<!--c--></div>");
}
