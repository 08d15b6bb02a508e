use browser::css::{Parser as CssParser, StyleSheet};
use browser::html::Parser as HtmlParser;
use browser::layout::{build_layout_tree, BoxType, Dimensions, Display, EdgeSizes, LayoutBox, Rect};
use browser::style::{style_tree, PropertyMap, StyledNode};

fn sheet(rules_text: &[&str]) -> StyleSheet {
    let mut rules = Vec::new();
    for t in rules_text {
        let mut p = CssParser::new(t);
        rules.push(p.parse_rule().unwrap());
    }
    StyleSheet { rules }
}

fn containing(width: i64) -> Dimensions {
    let mut d = Dimensions::default();
    d.content.width = width;
    d
}

fn block_with(declarations: &str) -> LayoutBox {
    let mut p = CssParser::new(&format!("x {{{}}}", declarations));
    let rule = p.parse_rule().unwrap();
    let mut pm = PropertyMap::new();
    for d in rule.declarations {
        pm.insert(d.name, d.value);
    }
    LayoutBox::new(BoxType::BlockNode(pm))
}

#[test]
fn auto_margins_center() {
    let b = block_with("width: 40px; margin: auto");
    let laid = b.layout(containing(100));
    assert_eq!(laid.dimensions.content.width, 40);
    assert_eq!(laid.dimensions.margin.left, 30);
    assert_eq!(laid.dimensions.margin.right, 30);
}

#[test]
fn auto_width_fills() {
    let b = block_with("");
    let laid = b.layout(containing(100));
    assert_eq!(laid.dimensions.content.width, 100);
    assert_eq!(laid.dimensions.margin.left, 0);
    assert_eq!(laid.dimensions.margin.right, 0);
}

#[test]
fn over_constrained_margin_right_absorbs() {
    let b = block_with("width: 60px; margin-left: 30px; margin-right: 30px");
    let laid = b.layout(containing(100));
    // 60 + 30 + 30 = 120 overflows by 20: margin-right absorbs it
    assert_eq!(laid.dimensions.content.width, 60);
    assert_eq!(laid.dimensions.margin.left, 30);
    assert_eq!(laid.dimensions.margin.right, 10);
}

#[test]
fn vertical_stacking() {
    let mut parent = block_with("");
    parent.children.push(block_with("height: 10px"));
    parent.children.push(block_with("height: 20px"));
    let laid = parent.layout(containing(100));
    assert_eq!(laid.children[0].dimensions.content.y, 0);
    assert_eq!(laid.children[1].dimensions.content.y, 10);
    // auto height accumulates the children's margin boxes
    assert_eq!(laid.dimensions.content.height, 30);
}

#[test]
fn edges_offset_position() {
    let b = block_with("width: 10px; margin-left: 1px; border-left-width: 2px; padding-left: 3px; margin-top: 4px");
    let laid = b.layout(containing(100));
    assert_eq!(laid.dimensions.content.x, 6);
    assert_eq!(laid.dimensions.content.y, 4);
}

#[test]
fn box_model_round_trip_concrete() {
    let d = Dimensions {
        content: Rect { x: 10, y: 20, width: 30, height: 40 },
        padding: EdgeSizes { top: 1, right: 2, bottom: 3, left: 4 },
        border: EdgeSizes { top: 5, right: 6, bottom: 7, left: 8 },
        margin: EdgeSizes { top: 9, right: 10, bottom: 11, left: 12 },
    };
    let mb = d.margin_box();
    assert_eq!(mb.x, 10 - 4 - 8 - 12);
    assert_eq!(mb.y, 20 - 1 - 5 - 9);
    assert_eq!(mb.width, 30 + (4 + 2) + (8 + 6) + (12 + 10));
    assert_eq!(mb.height, 40 + (1 + 3) + (5 + 7) + (9 + 11));
    // contracting the edges back recovers the content rectangle
    assert_eq!(mb.x + 12 + 8 + 4, d.content.x);
    assert_eq!(mb.y + 9 + 5 + 1, d.content.y);
    assert_eq!(mb.width - (12 + 10) - (8 + 6) - (4 + 2), d.content.width);
    assert_eq!(mb.height - (9 + 11) - (5 + 7) - (1 + 3), d.content.height);
}

#[test]
fn display_none_suppresses_boxes() {
    let doc = HtmlParser::new("<div><p>shown</p><b>hidden</b></div>").parse().unwrap();
    let ss = sheet(&[
        "div {display: block}",
        "p {display: block}",
        "b {display: none}",
    ]);
    let styled = style_tree(&doc, &ss);
    assert!(matches!(styled.display(), Display::Block));
    let tree = build_layout_tree(&styled).unwrap();
    // the b subtree is suppressed entirely
    assert_eq!(tree.children.len(), 1);
    let hidden_sheet = sheet(&["div {display: none}"]);
    let styled2 = style_tree(&doc, &hidden_sheet);
    assert!(build_layout_tree(&styled2).is_none());
}

#[test]
fn inline_boxes_keep_zero_geometry() {
    let doc = HtmlParser::new("<span>hi</span>").parse().unwrap();
    let styled = style_tree(&doc, &sheet(&[]));
    let tree = build_layout_tree(&styled).unwrap();
    let laid = tree.layout(containing(100));
    assert_eq!(laid.dimensions, Dimensions::default());
}

#[test]
fn styled_node_lookup_falls_back() {
    let doc = HtmlParser::new("<p>x</p>").parse().unwrap();
    let ss = sheet(&["p {margin: 7px}"]);
    let styled: StyledNode = style_tree(&doc, &ss);
    let zero = browser::css::Value::Length(0, browser::css::Unit::Px);
    assert_eq!(styled.lookup("margin-left", "margin", &zero).to_px(), 7);
    assert_eq!(styled.lookup("padding-left", "padding", &zero).to_px(), 0);
    assert_eq!(styled.value("margin-left"), None);
}
