//! The layout tree and the block box-model engine.
//!
//! Every styled node becomes a block box, an inline box, or — for
//! `display: none` — no box at all. Block boxes then get geometry in a
//! fixed order: width (with the constraint table for `auto` widths and
//! margins), position (stacked below earlier siblings), children, and
//! height. Geometry is whole pixels in `i64`; every arithmetic step
//! saturates at the `i64` range instead of overflowing.

use vstd::prelude::*;
use crate::assoc::al_lookup;
use crate::css::{Unit, Value, ValueModel};
use crate::scan;
use crate::style::{PropertyMap, PropsModel, StyledModel, StyledNode, styled_view};

verus! {

/// `v` clamped to the `i64` range.
pub open spec fn sat64(v: int) -> i64 {
    if v > i64::MAX {
        i64::MAX
    } else if v < i64::MIN {
        i64::MIN
    } else {
        v as i64
    }
}

/// Clamps an exact 128-bit value to the `i64` range.
fn clamp_i128(v: i128) -> (r: i64)
    ensures
        r == sat64(v as int),
{
    if v > i64::MAX as i128 {
        i64::MAX
    } else if v < i64::MIN as i128 {
        i64::MIN
    } else {
        v as i64
    }
}

/// Saturating addition.
pub fn sat_add(a: i64, b: i64) -> (r: i64)
    ensures
        r == sat64(a + b),
{
    clamp_i128(a as i128 + b as i128)
}

/// Division by two, rounding toward zero.
pub open spec fn div2(a: int) -> int {
    if a >= 0 {
        a / 2
    } else {
        -((-a) / 2)
    }
}

/// Executable division by two, rounding toward zero.
pub fn half(a: i64) -> (r: i64)
    ensures
        r as int == div2(a as int),
{
    if a >= 0 {
        ((a as u64) / 2) as i64
    } else {
        let m = (-(a as i128)) as u64;
        -((m / 2) as i64)
    }
}

/// A rectangle: position of its top-left corner, then extent.
#[derive(Clone, Copy, Debug, PartialEq, Eq, Structural)]
pub struct Rect {
    pub x: i64,
    pub y: i64,
    pub width: i64,
    pub height: i64,
}

/// Edge sizes of one box layer: top, right, bottom, left.
#[derive(Clone, Copy, Debug, PartialEq, Eq, Structural)]
pub struct EdgeSizes {
    pub top: i64,
    pub right: i64,
    pub bottom: i64,
    pub left: i64,
}

/// A box's geometry: content rectangle plus padding, border and margin
/// edge sizes.
#[derive(Clone, Copy, Debug, PartialEq, Eq, Structural)]
pub struct Dimensions {
    pub content: Rect,
    pub padding: EdgeSizes,
    pub border: EdgeSizes,
    pub margin: EdgeSizes,
}

/// The all-zero rectangle.
pub open spec fn zero_rect() -> Rect {
    Rect { x: 0, y: 0, width: 0, height: 0 }
}

/// All-zero edges.
pub open spec fn zero_edges() -> EdgeSizes {
    EdgeSizes { top: 0, right: 0, bottom: 0, left: 0 }
}

/// All-zero geometry.
pub open spec fn zero_dims() -> Dimensions {
    Dimensions { content: zero_rect(), padding: zero_edges(), border: zero_edges(), margin: zero_edges() }
}

impl Default for Dimensions {
    /// The all-zero geometry.
    fn default() -> (r: Dimensions)
        ensures
            r == zero_dims(),
    {
        Dimensions {
            content: Rect { x: 0, y: 0, width: 0, height: 0 },
            padding: EdgeSizes { top: 0, right: 0, bottom: 0, left: 0 },
            border: EdgeSizes { top: 0, right: 0, bottom: 0, left: 0 },
            margin: EdgeSizes { top: 0, right: 0, bottom: 0, left: 0 },
        }
    }
}

/// The rectangle grown outward by the edges: width and height grow by
/// the left+right and top+bottom edges, the corner moves up and left.
pub open spec fn spec_expanded_by(r: Rect, edge: EdgeSizes) -> Rect {
    Rect {
        x: sat64(r.x - edge.left),
        y: sat64(r.y - edge.top),
        width: sat64(r.width + edge.left + edge.right),
        height: sat64(r.height + edge.top + edge.bottom),
    }
}

/// The rectangle shrunk inward by the edges: the inverse of
/// `spec_expanded_by` away from saturation.
pub open spec fn spec_contracted_by(r: Rect, edge: EdgeSizes) -> Rect {
    Rect {
        x: sat64(r.x + edge.left),
        y: sat64(r.y + edge.top),
        width: sat64(r.width - edge.left - edge.right),
        height: sat64(r.height - edge.top - edge.bottom),
    }
}

impl Rect {
    /// Grows the rectangle outward by the edges.
    pub fn expanded_by(self, edge: EdgeSizes) -> (r: Rect)
        ensures
            r == spec_expanded_by(self, edge),
    {
        Rect {
            x: clamp_i128(self.x as i128 - edge.left as i128),
            y: clamp_i128(self.y as i128 - edge.top as i128),
            width: clamp_i128(self.width as i128 + edge.left as i128 + edge.right as i128),
            height: clamp_i128(self.height as i128 + edge.top as i128 + edge.bottom as i128),
        }
    }
}

/// The padding box: content grown by the padding.
pub open spec fn spec_padding_box(d: Dimensions) -> Rect {
    spec_expanded_by(d.content, d.padding)
}

/// The border box: padding box grown by the border.
pub open spec fn spec_border_box(d: Dimensions) -> Rect {
    spec_expanded_by(spec_padding_box(d), d.border)
}

/// The margin box: border box grown by the margin.
pub open spec fn spec_margin_box(d: Dimensions) -> Rect {
    spec_expanded_by(spec_border_box(d), d.margin)
}

impl Dimensions {
    /// The content rectangle grown by the padding.
    pub fn padding_box(self) -> (r: Rect)
        ensures
            r == spec_padding_box(self),
    {
        self.content.expanded_by(self.padding)
    }

    /// The padding box grown by the border.
    pub fn border_box(&self) -> (r: Rect)
        ensures
            r == spec_border_box(*self),
    {
        self.padding_box().expanded_by(self.border)
    }

    /// The border box grown by the margin.
    pub fn margin_box(&self) -> (r: Rect)
        ensures
            r == spec_margin_box(*self),
    {
        self.border_box().expanded_by(self.margin)
    }
}

/// Bound under which box-model arithmetic cannot saturate: eight
/// values of this size still fit in `i64`.
pub open spec fn in_bounds(v: int) -> bool {
    -0x400_0000_0000_0000 <= v <= 0x400_0000_0000_0000
}

/// Every field of the geometry is within `in_bounds`.
pub open spec fn dims_in_bounds(d: Dimensions) -> bool {
    &&& in_bounds(d.content.x as int)
    &&& in_bounds(d.content.y as int)
    &&& in_bounds(d.content.width as int)
    &&& in_bounds(d.content.height as int)
    &&& in_bounds(d.padding.top as int)
    &&& in_bounds(d.padding.right as int)
    &&& in_bounds(d.padding.bottom as int)
    &&& in_bounds(d.padding.left as int)
    &&& in_bounds(d.border.top as int)
    &&& in_bounds(d.border.right as int)
    &&& in_bounds(d.border.bottom as int)
    &&& in_bounds(d.border.left as int)
    &&& in_bounds(d.margin.top as int)
    &&& in_bounds(d.margin.right as int)
    &&& in_bounds(d.margin.bottom as int)
    &&& in_bounds(d.margin.left as int)
}

/// Box-model round trip: contracting the margin box by margin, border
/// and padding, in that order, recovers the content rectangle exactly,
/// whenever the geometry is far enough from the `i64` limits that no
/// step saturates.
pub proof fn lemma_box_model_round_trip(d: Dimensions)
    requires
        dims_in_bounds(d),
    ensures
        spec_contracted_by(
            spec_contracted_by(spec_contracted_by(spec_margin_box(d), d.margin), d.border),
            d.padding,
        ) == d.content,
{
}

/// The display classification of a styled node.
#[derive(Clone, Copy, Debug, PartialEq, Eq, Structural)]
pub enum Display {
    Inline,
    Block,
    NoBox,
}

/// The display classification the property map calls for: the keyword
/// `block` makes a block box, the keyword `none` suppresses the box,
/// and anything else — any other keyword, a non-keyword value, or no
/// `display` property at all — is inline.
pub open spec fn spec_display(p: PropsModel) -> Display {
    match al_lookup(p, "display"@) {
        Some(ValueModel::Keyword(k)) => if k == "block"@ {
            Display::Block
        } else if k == "none"@ {
            Display::NoBox
        } else {
            Display::Inline
        },
        _ => Display::Inline,
    }
}

/// The property's value, a fallback property's value, or the default.
pub open spec fn spec_lookup(
    p: PropsModel,
    name: Seq<char>,
    fallback_name: Seq<char>,
    default: ValueModel,
) -> ValueModel {
    match al_lookup(p, name) {
        Some(v) => v,
        None => match al_lookup(p, fallback_name) {
            Some(v) => v,
            None => default,
        },
    }
}

impl StyledNode {
    /// The node's value for the property, if the cascade set one.
    pub fn value(&self, name: &str) -> (r: Option<Value>)
        ensures
            match al_lookup(self@.specified_values, name@) {
                Some(v) => r is Some && r->Some_0@ == v,
                None => r is None,
            },
    {
        self.specified_values.get(name)
    }

    /// The display classification of this node.
    pub fn display(&self) -> (r: Display)
        ensures
            r == spec_display(self@.specified_values),
    {
        match self.value("display") {
            Some(Value::Keyword(s)) => {
                if scan::str_eq(s.as_str(), "block") {
                    Display::Block
                } else if scan::str_eq(s.as_str(), "none") {
                    Display::NoBox
                } else {
                    Display::Inline
                }
            },
            _ => Display::Inline,
        }
    }

    /// The value for `name`, else for `fallback_name`, else `default`.
    pub fn lookup(&self, name: &str, fallback_name: &str, default: &Value) -> (r: Value)
        ensures
            r@ == spec_lookup(self@.specified_values, name@, fallback_name@, default@),
    {
        match self.value(name) {
            Some(v) => v,
            None => match self.value(fallback_name) {
                Some(v) => v,
                None => default.clone_value(),
            },
        }
    }
}

/// The kind of a layout box. Block and inline boxes carry the styled
/// node's computed property map; anonymous blocks carry no style.
pub enum BoxType {
    BlockNode(PropertyMap),
    InlineNode(PropertyMap),
    AnonymousBlock,
}

/// Model of a box kind.
pub enum BoxTypeModel {
    BlockNode(PropsModel),
    InlineNode(PropsModel),
    AnonymousBlock,
}

impl View for BoxType {
    type V = BoxTypeModel;

    open spec fn view(&self) -> BoxTypeModel {
        match self {
            BoxType::BlockNode(p) => BoxTypeModel::BlockNode(p@),
            BoxType::InlineNode(p) => BoxTypeModel::InlineNode(p@),
            BoxType::AnonymousBlock => BoxTypeModel::AnonymousBlock,
        }
    }
}

/// A box in the layout tree: its geometry, its kind, and its child
/// boxes in order.
pub struct LayoutBox {
    pub dimensions: Dimensions,
    pub box_type: BoxType,
    pub children: Vec<LayoutBox>,
}

/// Model of a layout box.
pub struct LayoutBoxModel {
    pub dimensions: Dimensions,
    pub box_type: BoxTypeModel,
    pub children: Seq<LayoutBoxModel>,
}

/// Recursive model of a layout box.
pub open spec fn box_view(b: LayoutBox) -> LayoutBoxModel
    decreases b,
{
    LayoutBoxModel {
        dimensions: b.dimensions,
        box_type: b.box_type@,
        children: box_children_view(b.children@),
    }
}

/// Models of a sequence of layout boxes, in order.
pub open spec fn box_children_view(s: Seq<LayoutBox>) -> Seq<LayoutBoxModel>
    decreases s,
{
    if s.len() == 0 {
        Seq::empty()
    } else {
        seq![box_view(s[0])] + box_children_view(s.skip(1))
    }
}

/// `box_children_view` maps `box_view` element by element.
pub proof fn lemma_box_children_view(s: Seq<LayoutBox>)
    ensures
        box_children_view(s).len() == s.len(),
        forall|i: int| 0 <= i < s.len() ==> box_children_view(s)[i] == box_view(s[i]),
    decreases s,
{
    if s.len() > 0 {
        lemma_box_children_view(s.skip(1));
        assert forall|i: int|
            0 <= i < s.len() implies box_children_view(s)[i] == box_view(s[i]) by {
            if i > 0 {
                assert(s.skip(1)[i - 1] == s[i]);
            }
        }
    }
}

impl View for LayoutBox {
    type V = LayoutBoxModel;

    open spec fn view(&self) -> LayoutBoxModel {
        box_view(*self)
    }
}

impl LayoutBox {
    /// A geometry-less box of the given kind.
    pub fn new(box_type: BoxType) -> (r: LayoutBox)
        ensures
            r@.box_type == box_type@,
            r@.dimensions == zero_dims(),
            r@.children == Seq::<LayoutBoxModel>::empty(),
    {
        let r = LayoutBox { box_type, dimensions: Dimensions::default(), children: Vec::new() };
        proof {
            assert(r@.children =~= Seq::<LayoutBoxModel>::empty());
        }
        r
    }

    /// The computed property map behind a block or inline box.
    pub fn get_style(&self) -> (r: &PropertyMap)
        requires
            !(self@.box_type is AnonymousBlock),
        ensures
            match self@.box_type {
                BoxTypeModel::BlockNode(p) => r@ == p,
                BoxTypeModel::InlineNode(p) => r@ == p,
                BoxTypeModel::AnonymousBlock => false,
            },
    {
        match &self.box_type {
            BoxType::BlockNode(p) => p,
            BoxType::InlineNode(p) => p,
            BoxType::AnonymousBlock => unreached(),
        }
    }
}

/// The layout box of a styled node: no box for `display: none`, a
/// block or inline box otherwise, with the boxes of the children (in
/// order, suppressed children omitted) as its children.
pub open spec fn spec_build_layout_tree(sn: StyledModel) -> Option<LayoutBoxModel>
    decreases sn,
{
    match spec_display(sn.specified_values) {
        Display::NoBox => None,
        Display::Block => Some(
            LayoutBoxModel {
                dimensions: zero_dims(),
                box_type: BoxTypeModel::BlockNode(sn.specified_values),
                children: spec_build_children(sn.children),
            },
        ),
        Display::Inline => Some(
            LayoutBoxModel {
                dimensions: zero_dims(),
                box_type: BoxTypeModel::InlineNode(sn.specified_values),
                children: spec_build_children(sn.children),
            },
        ),
    }
}

/// The layout boxes of a sequence of styled nodes, in order, without
/// the suppressed ones.
pub open spec fn spec_build_children(s: Seq<StyledModel>) -> Seq<LayoutBoxModel>
    decreases s,
{
    if s.len() == 0 {
        Seq::empty()
    } else {
        let pre = spec_build_children(s.drop_last());
        match spec_build_layout_tree(s.last()) {
            Some(b) => pre.push(b),
            None => pre,
        }
    }
}

/// Builds the layout tree skeleton for a styled tree: classification
/// only, no geometry yet. A `display: none` subtree yields no box.
pub fn build_layout_tree(style_node: &StyledNode) -> (r: Option<LayoutBox>)
    ensures
        match spec_build_layout_tree(style_node@) {
            Some(m) => r is Some && r->0@ == m,
            None => r is None,
        },
    decreases *style_node,
{
    let box_type = match style_node.display() {
        Display::Block => BoxType::BlockNode(style_node.specified_values.copy_of()),
        Display::Inline => BoxType::InlineNode(style_node.specified_values.copy_of()),
        Display::NoBox => {
            return None;
        },
    };
    let mut children: Vec<LayoutBox> = Vec::new();
    let mut i: usize = 0;
    let n: usize = style_node.children.len();
    let ghost scv = crate::style::styled_children_view(style_node.children@);
    proof {
        crate::style::lemma_styled_children_view(style_node.children@);
        assert(scv.take(0) =~= Seq::<StyledModel>::empty());
        assert(box_children_view(children@) =~= Seq::<LayoutBoxModel>::empty());
    }
    while i < n
        invariant
            i <= n,
            n == style_node.children@.len(),
            scv == crate::style::styled_children_view(style_node.children@),
            scv.len() == n,
            forall|j: int| 0 <= j < n ==> scv[j] == styled_view(style_node.children@[j]),
            box_children_view(children@) == spec_build_children(scv.take(i as int)),
        decreases n - i,
    {
        let ghost cpre = children@;
        proof {
            assert(decreases_to!(*style_node => style_node.children@[i as int]));
            assert(scv.take(i as int + 1).drop_last() =~= scv.take(i as int));
            assert(scv.take(i as int + 1).last() == scv[i as int]);
        }
        match build_layout_tree(&style_node.children[i]) {
            Some(b) => {
                children.push(b);
                proof {
                    lemma_box_children_view(cpre);
                    lemma_box_children_view(children@);
                    assert(box_children_view(children@) =~= spec_build_children(
                        scv.take(i as int + 1),
                    ));
                }
            },
            None => {},
        }
        i += 1;
    }
    proof {
        assert(scv.take(n as int) =~= scv);
    }
    let r = LayoutBox { dimensions: Dimensions::default(), box_type, children };
    Some(r)
}

/// The property map of a block or inline box; empty for anonymous.
pub open spec fn block_props(bt: BoxTypeModel) -> PropsModel {
    match bt {
        BoxTypeModel::BlockNode(p) => p,
        BoxTypeModel::InlineNode(p) => p,
        BoxTypeModel::AnonymousBlock => Seq::empty(),
    }
}

/// The keyword `auto`.
pub open spec fn auto_kw() -> ValueModel {
    ValueModel::Keyword("auto"@)
}

/// The zero-pixel length.
pub open spec fn zero_len() -> ValueModel {
    ValueModel::Length(0, Unit::Px)
}

/// Whether the value is the keyword `auto`.
pub fn value_is_auto(v: &Value) -> (r: bool)
    ensures
        r == (v@ == auto_kw()),
{
    match v {
        Value::Keyword(s) => scan::str_eq(s.as_str(), "auto"),
        _ => false,
    }
}

/// Looks up the property, then the fallback property, then defaults.
pub fn props_lookup(style: &PropertyMap, name: &str, fallback_name: &str, default: &Value) -> (r:
    Value)
    ensures
        r@ == spec_lookup(style@, name@, fallback_name@, default@),
{
    match style.get(name) {
        Some(v) => v,
        None => match style.get(fallback_name) {
            Some(v) => v,
            None => default.clone_value(),
        },
    }
}

/// The geometry after width resolution: the constraint table for
/// block-level boxes in normal flow. `width` and the margins default
/// to `auto`, border and padding to zero. With a fixed width whose
/// total overflows the containing block, `auto` margins become zero;
/// then the one free value (margin-right, margin-left, the width, or
/// both margins halved) absorbs the underflow, margin-right absorbing
/// it in the over-constrained case. An `auto` width may come out
/// negative; there is deliberately no clamp, so the total always adds
/// up to the containing width.
pub open spec fn spec_block_width_dims(p: PropsModel, cb: Dimensions, d: Dimensions) -> Dimensions {
    let auto = auto_kw();
    let zero = zero_len();
    let width = match al_lookup(p, "width"@) {
        Some(v) => v,
        None => auto,
    };
    let margin_left = spec_lookup(p, "margin-left"@, "margin"@, zero);
    let margin_right = spec_lookup(p, "margin-right"@, "margin"@, zero);
    let border_left = spec_lookup(p, "border-left-width"@, "border-width"@, zero);
    let border_right = spec_lookup(p, "border-right-width"@, "border-width"@, zero);
    let padding_left = spec_lookup(p, "padding-left"@, "padding"@, zero);
    let padding_right = spec_lookup(p, "padding-right"@, "padding"@, zero);
    let total = crate::css::spec_to_px(margin_left) + crate::css::spec_to_px(margin_right)
        + crate::css::spec_to_px(padding_left) + crate::css::spec_to_px(padding_right)
        + crate::css::spec_to_px(border_left) + crate::css::spec_to_px(border_right)
        + crate::css::spec_to_px(width);
    let over = width != auto && total > cb.content.width;
    let margin_left = if over && margin_left == auto {
        zero
    } else {
        margin_left
    };
    let margin_right = if over && margin_right == auto {
        zero
    } else {
        margin_right
    };
    let underflow = sat64(cb.content.width - total);
    let wa = width == auto;
    let mla = margin_left == auto;
    let mra = margin_right == auto;
    let w_px = if wa {
        underflow
    } else {
        crate::css::spec_to_px(width)
    };
    let ml_px = if wa {
        if mla {
            0
        } else {
            crate::css::spec_to_px(margin_left)
        }
    } else if !mla && !mra {
        crate::css::spec_to_px(margin_left)
    } else if !mla && mra {
        crate::css::spec_to_px(margin_left)
    } else if mla && !mra {
        underflow
    } else {
        sat64(div2(underflow as int))
    };
    let mr_px = if wa {
        if mra {
            0
        } else {
            crate::css::spec_to_px(margin_right)
        }
    } else if !mla && !mra {
        sat64(crate::css::spec_to_px(margin_right) + underflow)
    } else if !mla && mra {
        underflow
    } else if mla && !mra {
        crate::css::spec_to_px(margin_right)
    } else {
        sat64(div2(underflow as int))
    };
    Dimensions {
        content: Rect { width: w_px, ..d.content },
        margin: EdgeSizes { left: ml_px, right: mr_px, ..d.margin },
        border: EdgeSizes {
            left: crate::css::spec_to_px(border_left),
            right: crate::css::spec_to_px(border_right),
            ..d.border
        },
        padding: EdgeSizes {
            left: crate::css::spec_to_px(padding_left),
            right: crate::css::spec_to_px(padding_right),
            ..d.padding
        },
    }
}

/// The geometry after position resolution: vertical edges default like
/// the horizontal ones (`auto` margins count zero), and the content
/// corner sits inside the containing block's content box, below
/// everything laid out there so far.
pub open spec fn spec_block_position_dims(p: PropsModel, cb: Dimensions, d: Dimensions)
    -> Dimensions {
    let zero = zero_len();
    let d2 = Dimensions {
        margin: EdgeSizes {
            top: crate::css::spec_to_px(spec_lookup(p, "margin-top"@, "margin"@, zero)),
            bottom: crate::css::spec_to_px(spec_lookup(p, "margin-bottom"@, "margin"@, zero)),
            ..d.margin
        },
        border: EdgeSizes {
            top: crate::css::spec_to_px(
                spec_lookup(p, "border-top-width"@, "border-width"@, zero),
            ),
            bottom: crate::css::spec_to_px(
                spec_lookup(p, "border-bottom-width"@, "border-width"@, zero),
            ),
            ..d.border
        },
        padding: EdgeSizes {
            top: crate::css::spec_to_px(spec_lookup(p, "padding-top"@, "padding"@, zero)),
            bottom: crate::css::spec_to_px(spec_lookup(p, "padding-bottom"@, "padding"@, zero)),
            ..d.padding
        },
        ..d
    };
    Dimensions {
        content: Rect {
            x: sat64(cb.content.x + d2.margin.left + d2.border.left + d2.padding.left),
            y: sat64(
                cb.content.height + cb.content.y + d2.margin.top + d2.border.top + d2.padding.top,
            ),
            ..d2.content
        },
        ..d2
    }
}

/// The geometry after height resolution: an explicit pixel `height`
/// overwrites the accumulated content height; anything else leaves it.
pub open spec fn spec_block_height_dims(p: PropsModel, d: Dimensions) -> Dimensions {
    match al_lookup(p, "height"@) {
        Some(ValueModel::Length(h, Unit::Px)) => Dimensions {
            content: Rect { height: h, ..d.content },
            ..d
        },
        _ => d,
    }
}

/// The laid-out box: block boxes get geometry in the fixed order
/// width, position, children, height; inline and anonymous boxes are
/// untouched.
pub open spec fn spec_layout(b: LayoutBoxModel, cb: Dimensions) -> LayoutBoxModel
    decreases b,
{
    match b.box_type {
        BoxTypeModel::BlockNode(p) => {
            let d1 = spec_block_width_dims(p, cb, b.dimensions);
            let d2 = spec_block_position_dims(p, cb, d1);
            let kd = spec_layout_children(b.children, d2);
            let d4 = spec_block_height_dims(p, kd.1);
            LayoutBoxModel { dimensions: d4, box_type: b.box_type, children: kd.0 }
        },
        _ => b,
    }
}

/// Lays out the children in order against the parent's in-progress
/// geometry, growing its content height by each child's margin-box
/// height, so siblings stack vertically.
pub open spec fn spec_layout_children(s: Seq<LayoutBoxModel>, d: Dimensions) -> (
    Seq<LayoutBoxModel>,
    Dimensions,
)
    decreases s,
{
    if s.len() == 0 {
        (Seq::empty(), d)
    } else {
        let c = spec_layout(s[0], d);
        let d1 = Dimensions {
            content: Rect {
                height: sat64(d.content.height + spec_margin_box(c.dimensions).height),
                ..d.content
            },
            ..d
        };
        let kd = spec_layout_children(s.skip(1), d1);
        (seq![c] + kd.0, kd.1)
    }
}

impl LayoutBox {
    /// Resolves the box's width, horizontal margins, border and
    /// padding against the containing block (step one of block layout).
    pub fn calculate_block_width(&mut self, containing_block: Dimensions)
        requires
            old(self)@.box_type is BlockNode,
        ensures
            final(self).box_type == old(self).box_type,
            final(self).children == old(self).children,
            final(self).dimensions == spec_block_width_dims(
                block_props(old(self)@.box_type),
                containing_block,
                old(self).dimensions,
            ),
    {
        let style = match &self.box_type {
            BoxType::BlockNode(p) => p,
            _ => unreached(),
        };
        let auto = Value::Keyword("auto".to_owned());
        let zero = Value::Length(0, Unit::Px);
        let width = match style.get("width") {
            Some(v) => v,
            None => auto.clone_value(),
        };
        let margin_left = props_lookup(style, "margin-left", "margin", &zero);
        let margin_right = props_lookup(style, "margin-right", "margin", &zero);
        let border_left = props_lookup(style, "border-left-width", "border-width", &zero);
        let border_right = props_lookup(style, "border-right-width", "border-width", &zero);
        let padding_left = props_lookup(style, "padding-left", "padding", &zero);
        let padding_right = props_lookup(style, "padding-right", "padding", &zero);
        let total: i128 = margin_left.to_px() as i128 + margin_right.to_px() as i128
            + padding_left.to_px() as i128 + padding_right.to_px() as i128
            + border_left.to_px() as i128 + border_right.to_px() as i128 + width.to_px() as i128;
        let wa = value_is_auto(&width);
        let over = !wa && total > containing_block.content.width as i128;
        let margin_left = if over && value_is_auto(&margin_left) {
            zero.clone_value()
        } else {
            margin_left
        };
        let margin_right = if over && value_is_auto(&margin_right) {
            zero.clone_value()
        } else {
            margin_right
        };
        let underflow = clamp_i128(containing_block.content.width as i128 - total);
        let mla = value_is_auto(&margin_left);
        let mra = value_is_auto(&margin_right);
        let w_px: i64;
        let ml_px: i64;
        let mr_px: i64;
        if wa {
            w_px = underflow;
            ml_px = if mla {
                0
            } else {
                margin_left.to_px()
            };
            mr_px = if mra {
                0
            } else {
                margin_right.to_px()
            };
        } else if !mla && !mra {
            w_px = width.to_px();
            ml_px = margin_left.to_px();
            mr_px = sat_add(margin_right.to_px(), underflow);
        } else if !mla && mra {
            w_px = width.to_px();
            ml_px = margin_left.to_px();
            mr_px = underflow;
        } else if mla && !mra {
            w_px = width.to_px();
            ml_px = underflow;
            mr_px = margin_right.to_px();
        } else {
            w_px = width.to_px();
            let h = half(underflow);
            proof {
                assert(div2(underflow as int) == sat64(div2(underflow as int)));
            }
            ml_px = h;
            mr_px = h;
        }
        self.dimensions.content.width = w_px;
        self.dimensions.margin.left = ml_px;
        self.dimensions.margin.right = mr_px;
        self.dimensions.border.left = border_left.to_px();
        self.dimensions.border.right = border_right.to_px();
        self.dimensions.padding.left = padding_left.to_px();
        self.dimensions.padding.right = padding_right.to_px();
    }

    /// Resolves the vertical edges and the content position against
    /// the containing block (step two of block layout).
    pub fn calculate_block_position(&mut self, containing_block: Dimensions)
        requires
            old(self)@.box_type is BlockNode,
        ensures
            final(self).box_type == old(self).box_type,
            final(self).children == old(self).children,
            final(self).dimensions == spec_block_position_dims(
                block_props(old(self)@.box_type),
                containing_block,
                old(self).dimensions,
            ),
    {
        let style = match &self.box_type {
            BoxType::BlockNode(p) => p,
            _ => unreached(),
        };
        let zero = Value::Length(0, Unit::Px);
        let mt = props_lookup(style, "margin-top", "margin", &zero).to_px();
        let mb = props_lookup(style, "margin-bottom", "margin", &zero).to_px();
        let bt = props_lookup(style, "border-top-width", "border-width", &zero).to_px();
        let bb = props_lookup(style, "border-bottom-width", "border-width", &zero).to_px();
        let pt = props_lookup(style, "padding-top", "padding", &zero).to_px();
        let pb = props_lookup(style, "padding-bottom", "padding", &zero).to_px();
        self.dimensions.margin.top = mt;
        self.dimensions.margin.bottom = mb;
        self.dimensions.border.top = bt;
        self.dimensions.border.bottom = bb;
        self.dimensions.padding.top = pt;
        self.dimensions.padding.bottom = pb;
        self.dimensions.content.x = clamp_i128(
            containing_block.content.x as i128 + self.dimensions.margin.left as i128
                + self.dimensions.border.left as i128 + self.dimensions.padding.left as i128,
        );
        self.dimensions.content.y = clamp_i128(
            containing_block.content.height as i128 + containing_block.content.y as i128
                + self.dimensions.margin.top as i128 + self.dimensions.border.top as i128
                + self.dimensions.padding.top as i128,
        );
    }

    /// Overwrites the content height with an explicit pixel `height`,
    /// when one is set (step four of block layout).
    pub fn calculate_block_height(&mut self)
        requires
            old(self)@.box_type is BlockNode,
        ensures
            final(self).box_type == old(self).box_type,
            final(self).children == old(self).children,
            final(self).dimensions == spec_block_height_dims(
                block_props(old(self)@.box_type),
                old(self).dimensions,
            ),
    {
        let hv = match &self.box_type {
            BoxType::BlockNode(p) => p.get("height"),
            _ => unreached(),
        };
        match hv {
            Some(Value::Length(h, Unit::Px)) => {
                self.dimensions.content.height = h;
            },
            _ => {},
        }
    }

    /// Lays the box out against its containing block: block boxes get
    /// geometry, inline and anonymous boxes are returned untouched.
    #[verifier::loop_isolation(false)]
    pub fn layout(self, containing_block: Dimensions) -> (r: LayoutBox)
        ensures
            r@ == spec_layout(self@, containing_block),
        decreases self,
    {
        let ghost self0 = self;
        let mut this = self;
        match &this.box_type {
            BoxType::BlockNode(_) => {},
            _ => {
                return this;
            },
        }
        this.calculate_block_width(containing_block);
        this.calculate_block_position(containing_block);
        let LayoutBox { dimensions, box_type, children } = this;
        let mut d = dimensions;
        let mut rest = children;
        let mut done: Vec<LayoutBox> = Vec::new();
        let ghost full = spec_layout_children(box_children_view(self0.children@), d);
        let ghost mut k: int = 0;
        proof {
            assert(box_children_view(done@) =~= Seq::<LayoutBoxModel>::empty());
            assert(rest@ =~= self0.children@.skip(0));
            assert(Seq::<LayoutBoxModel>::empty() + spec_layout_children(
                box_children_view(rest@),
                d,
            ).0 =~= spec_layout_children(box_children_view(rest@), d).0);
        }
        while rest.len() > 0
            invariant
                0 <= k <= self0.children@.len(),
                rest@ == self0.children@.skip(k),
                full.0 == box_children_view(done@) + spec_layout_children(
                    box_children_view(rest@),
                    d,
                ).0,
                full.1 == spec_layout_children(box_children_view(rest@), d).1,
            decreases rest@.len(),
        {
            let ghost rest0 = rest@;
            let ghost done0 = done@;
            let ghost d0 = d;
            let child = rest.remove(0);
            proof {
                assert(child == self0.children@[k]);
                assert(decreases_to!(self0 => self0.children@[k]));
                assert(rest@ =~= rest0.skip(1));
            }
            let child2 = child.layout(d);
            let mbh = child2.dimensions.margin_box().height;
            d.content.height = sat_add(d.content.height, mbh);
            done.push(child2);
            proof {
                k = k + 1;
                assert(rest@ =~= self0.children@.skip(k));
                let bc = box_children_view(rest0);
                assert(bc == seq![box_view(rest0[0])] + box_children_view(rest0.skip(1)));
                assert(bc[0] == box_view(child));
                assert(bc.skip(1) =~= box_children_view(rest@));
                let c = spec_layout(bc[0], d0);
                assert(c == child2@);
                let d1 = Dimensions {
                    content: Rect {
                        height: sat64(d0.content.height + spec_margin_box(c.dimensions).height),
                        ..d0.content
                    },
                    ..d0
                };
                assert(d == d1);
                assert(spec_layout_children(bc, d0).0 == seq![c] + spec_layout_children(
                    bc.skip(1),
                    d1,
                ).0);
                assert(spec_layout_children(bc, d0).1 == spec_layout_children(bc.skip(1), d1).1);
                lemma_box_children_view(done0);
                lemma_box_children_view(done@);
                assert(box_children_view(done@) =~= box_children_view(done0).push(child2@));
                assert(box_children_view(done0) + (seq![c] + spec_layout_children(
                    box_children_view(rest@),
                    d,
                ).0) =~= box_children_view(done@) + spec_layout_children(
                    box_children_view(rest@),
                    d,
                ).0);
            }
        }
        proof {
            assert(box_children_view(rest@) =~= Seq::<LayoutBoxModel>::empty());
            assert(full.0 =~= box_children_view(done@));
        }
        let mut rebuilt = LayoutBox { dimensions: d, box_type, children: done };
        rebuilt.calculate_block_height();
        rebuilt
    }
}

} // verus!
