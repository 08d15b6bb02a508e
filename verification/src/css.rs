//! The stylesheet model: rules, selectors, declarations and values,
//! with selector specificity and declaration-value classification.
//!
//! Lengths are whole pixels (`i64`); a declaration value that cannot be
//! classified as a color or a length stays an opaque keyword, so one
//! malformed declaration never rejects a stylesheet.

use vstd::prelude::*;
use crate::scan;
use crate::scan::{CharClass, ParseError, run_len, class_allows};
use crate::order::{Specificity, spec_lt};

verus! {

broadcast use crate::scan::lemma_run_len_le;

/// A whole stylesheet: its rules, in source order.
#[derive(Debug)]
pub struct StyleSheet {
    pub rules: Vec<Rule>,
}

/// One rule: its selectors (any match applies the rule) and its
/// declarations, in source order.
#[derive(Debug)]
pub struct Rule {
    pub selectors: Vec<Selector>,
    pub declarations: Vec<Declaration>,
}

/// A selector. Simple selectors are the only variant.
#[derive(Debug)]
pub enum Selector {
    Simple(SimpleSelector),
}

/// A simple selector: optional tag name, optional id, class names.
/// Absent constraints are wildcards.
#[derive(Debug)]
pub struct SimpleSelector {
    pub tag_name: Option<String>,
    pub id: Option<String>,
    pub class: Vec<String>,
}

/// One `name: value` declaration.
#[derive(Debug)]
pub struct Declaration {
    pub name: String,
    pub value: Value,
}

/// The length unit. Pixels are the only unit.
#[derive(Clone, Copy, Debug, PartialEq, Eq, Structural)]
pub enum Unit {
    Px,
}

/// A color with 0-255 channels; `a` is the alpha channel.
#[derive(Clone, Copy, Debug, PartialEq, Eq, Structural)]
pub struct Color {
    pub r: u8,
    pub g: u8,
    pub b: u8,
    pub a: u8,
}

/// A declaration value: an opaque keyword, a pixel length, or a color.
#[derive(Debug)]
pub enum Value {
    Keyword(String),
    Length(i64, Unit),
    ColorValue(Color),
}

/// Model of a simple selector.
pub struct SelectorModel {
    pub tag_name: Option<Seq<char>>,
    pub id: Option<Seq<char>>,
    pub class: Seq<Seq<char>>,
}

/// Model of a value.
pub enum ValueModel {
    Keyword(Seq<char>),
    Length(i64, Unit),
    ColorValue(Color),
}

/// Model of a declaration.
pub struct DeclarationModel {
    pub name: Seq<char>,
    pub value: ValueModel,
}

/// Model of a rule.
pub struct RuleModel {
    pub selectors: Seq<SelectorModel>,
    pub declarations: Seq<DeclarationModel>,
}

impl View for SimpleSelector {
    type V = SelectorModel;

    open spec fn view(&self) -> SelectorModel {
        SelectorModel {
            tag_name: match self.tag_name {
                Some(ref t) => Some(t@),
                None => None,
            },
            id: match self.id {
                Some(ref t) => Some(t@),
                None => None,
            },
            class: self.class@.map_values(|c: String| c@),
        }
    }
}

impl View for Selector {
    type V = SelectorModel;

    open spec fn view(&self) -> SelectorModel {
        match self {
            Selector::Simple(s) => s@,
        }
    }
}

impl View for Value {
    type V = ValueModel;

    open spec fn view(&self) -> ValueModel {
        match self {
            Value::Keyword(s) => ValueModel::Keyword(s@),
            Value::Length(n, u) => ValueModel::Length(*n, *u),
            Value::ColorValue(c) => ValueModel::ColorValue(*c),
        }
    }
}

impl View for Declaration {
    type V = DeclarationModel;

    open spec fn view(&self) -> DeclarationModel {
        DeclarationModel { name: self.name@, value: self.value@ }
    }
}

impl View for Rule {
    type V = RuleModel;

    open spec fn view(&self) -> RuleModel {
        RuleModel {
            selectors: self.selectors@.map_values(|s: Selector| s@),
            declarations: self.declarations@.map_values(|d: Declaration| d@),
        }
    }
}

impl View for StyleSheet {
    type V = Seq<RuleModel>;

    open spec fn view(&self) -> Seq<RuleModel> {
        self.rules@.map_values(|r: Rule| r@)
    }
}

impl PartialEq for Value {
    /// Structural equality: same variant and same content.
    fn eq(&self, other: &Value) -> (r: bool) {
        match (self, other) {
            (Value::Keyword(a), Value::Keyword(b)) => scan::str_eq(a.as_str(), b.as_str()),
            (Value::Length(n1, u1), Value::Length(n2, u2)) => *n1 == *n2 && *u1 == *u2,
            (Value::ColorValue(c1), Value::ColorValue(c2)) => *c1 == *c2,
            _ => false,
        }
    }
}

impl vstd::std_specs::cmp::PartialEqSpecImpl for Value {
    open spec fn obeys_eq_spec() -> bool {
        true
    }

    open spec fn eq_spec(&self, other: &Value) -> bool {
        self@ == other@
    }
}

/// Specificity of a simple selector model: one point for an id, one
/// per class, one for a tag name.
pub open spec fn spec_specificity(s: SelectorModel) -> Specificity {
    (
        if s.id is Some {
            1usize
        } else {
            0usize
        },
        s.class.len() as usize,
        if s.tag_name is Some {
            1usize
        } else {
            0usize
        },
    )
}

impl Selector {
    /// The selector's specificity: `(id count, class count, tag count)`.
    pub fn specificity(&self) -> (r: Specificity)
        ensures
            r == spec_specificity(self@),
    {
        let Selector::Simple(simple) = self;
        let a: usize = if simple.id.is_some() {
            1
        } else {
            0
        };
        let b: usize = simple.class.len();
        let c: usize = if simple.tag_name.is_some() {
            1
        } else {
            0
        };
        (a, b, c)
    }
}

/// A selector with an id always outranks one without, whatever their
/// class and tag counts.
pub proof fn lemma_id_dominates(a: SelectorModel, b: SelectorModel)
    requires
        a.id is Some,
        b.id is None,
    ensures
        crate::order::spec_lt(spec_specificity(b), spec_specificity(a)),
{
}

/// A hexadecimal digit.
pub open spec fn is_hex_digit(c: char) -> bool {
    scan::is_digit(c) || ('a' <= c && c <= 'f') || ('A' <= c && c <= 'F')
}

/// Value of one hexadecimal digit.
pub open spec fn hex_digit_val(c: char) -> int {
    if scan::is_digit(c) {
        c as u32 - '0' as u32
    } else if 'a' <= c && c <= 'f' {
        c as u32 - 'a' as u32 + 10
    } else {
        c as u32 - 'A' as u32 + 10
    }
}

/// Channel value of two hexadecimal digits.
pub open spec fn hex2(c1: char, c2: char) -> u8 {
    (hex_digit_val(c1) * 16 + hex_digit_val(c2)) as u8
}

/// Executable hexadecimal digit test.
pub fn is_hex_digit_exec(c: char) -> (b: bool)
    ensures
        b == is_hex_digit(c),
{
    scan::is_digit_exec(c) || ('a' <= c && c <= 'f') || ('A' <= c && c <= 'F')
}

/// Executable hexadecimal digit value.
pub fn hex_digit_val_exec(c: char) -> (v: u8)
    requires
        is_hex_digit(c),
    ensures
        v as int == hex_digit_val(c),
        v < 16,
{
    if '0' <= c && c <= '9' {
        (c as u8) - 48
    } else if 'a' <= c && c <= 'f' {
        (c as u8) - 97 + 10
    } else {
        (c as u8) - 65 + 10
    }
}

/// The color a string names, if any: `#RRGGBB` (alpha 0), or
/// `rgba(r, g, b, a)` with four comma-separated integers in `0 ..= 255`,
/// blanks around each allowed.
pub open spec fn spec_parse_color(s: Seq<char>) -> Option<Color> {
    if s.len() == 7 && s[0] == '#' && (forall|i: int| 1 <= i < 7 ==> is_hex_digit(s[i])) {
        Some(
            Color {
                r: hex2(s[1], s[2]),
                g: hex2(s[3], s[4]),
                b: hex2(s[5], s[6]),
                a: 0,
            },
        )
    } else if s.len() >= 6 && s.take(5) == "rgba("@ && s.last() == ')' {
        let comps = scan::split_on(s.subrange(5, s.len() - 1), ',');
        if comps.len() == 4 && (forall|i: int|
            0 <= i < 4 ==> scan::all_digits(scan::trim(comps[i])) && scan::dec_val(
                scan::trim(comps[i]),
            ) <= 255) {
            Some(
                Color {
                    r: scan::dec_val(scan::trim(comps[0])) as u8,
                    g: scan::dec_val(scan::trim(comps[1])) as u8,
                    b: scan::dec_val(scan::trim(comps[2])) as u8,
                    a: scan::dec_val(scan::trim(comps[3])) as u8,
                },
            )
        } else {
            None
        }
    } else {
        None
    }
}

/// The pixel length a string names, if any: an integer literal (under
/// the rules of `int_lit_val`) followed by `px`.
pub open spec fn spec_parse_length(s: Seq<char>) -> Option<(i64, Unit)> {
    if s.len() >= 2 && s[s.len() - 2] == 'p' && s[s.len() - 1] == 'x' {
        Some((scan::int_lit_val(s.take(s.len() - 2)) as i64, Unit::Px))
    } else {
        None
    }
}

impl Value {
    /// Parses a color in `#RRGGBB` or `rgba(r, g, b, a)` form.
    pub fn parse_as_color(s: &str) -> (r: Option<Color>)
        ensures
            r == spec_parse_color(s@),
    {
        let n: usize = s.unicode_len();
        if n == 7 && s.get_char(0) == '#' {
            let mut i: usize = 1;
            while i < 7
                invariant
                    1 <= i <= 7,
                    n == 7,
                    n == s@.len(),
                    s@[0] == '#',
                    forall|j: int| 1 <= j < i ==> is_hex_digit(s@[j]),
                decreases 7 - i,
            {
                if !is_hex_digit_exec(s.get_char(i)) {
                    proof {
                        reveal_strlit("rgba(");
                        assert(s@.take(5)[0] == s@[0]);
                    }
                    return None;
                }
                i += 1;
            }
            let d1 = hex_digit_val_exec(s.get_char(1));
            let d2 = hex_digit_val_exec(s.get_char(2));
            let d3 = hex_digit_val_exec(s.get_char(3));
            let d4 = hex_digit_val_exec(s.get_char(4));
            let d5 = hex_digit_val_exec(s.get_char(5));
            let d6 = hex_digit_val_exec(s.get_char(6));
            Some(
                Color {
                    r: d1 * 16 + d2,
                    g: d3 * 16 + d4,
                    b: d5 * 16 + d6,
                    a: 0,
                },
            )
        } else if n >= 6 && s.get_char(0) == 'r' && s.get_char(1) == 'g' && s.get_char(2) == 'b'
            && s.get_char(3) == 'a' && s.get_char(4) == '(' && s.get_char(n - 1) == ')' {
            proof {
                reveal_strlit("rgba(");
                assert(s@.take(5) =~= "rgba("@);
            }
            let inner = s.substring_char(5, n - 1);
            let comps = scan::split_on_exec(inner, ',');
            proof {
                assert(inner@ =~= s@.subrange(5, s@.len() - 1));
            }
            if comps.len() != 4 {
                return None;
            }
            let t0 = scan::trim_exec(comps[0].as_str());
            let t1 = scan::trim_exec(comps[1].as_str());
            let t2 = scan::trim_exec(comps[2].as_str());
            let t3 = scan::trim_exec(comps[3].as_str());
            let v0 = scan::parse_u8_lit(t0.as_str());
            let v1 = scan::parse_u8_lit(t1.as_str());
            let v2 = scan::parse_u8_lit(t2.as_str());
            let v3 = scan::parse_u8_lit(t3.as_str());
            proof {
                let m = comps@.map_values(|x: String| x@);
                assert(m[0] == comps@[0]@);
                assert(m[1] == comps@[1]@);
                assert(m[2] == comps@[2]@);
                assert(m[3] == comps@[3]@);
            }
            match (v0, v1, v2, v3) {
                (Some(r), Some(g), Some(b), Some(a)) => Some(Color { r, g, b, a }),
                _ => None,
            }
        } else {
            proof {
                reveal_strlit("rgba(");
                if s@.len() >= 6 && s@.take(5) == "rgba("@ && s@.last() == ')' {
                    assert(s@.take(5)[0] == s@[0]);
                    assert(s@.take(5)[1] == s@[1]);
                    assert(s@.take(5)[2] == s@[2]);
                    assert(s@.take(5)[3] == s@[3]);
                    assert(s@.take(5)[4] == s@[4]);
                }
            }
            None
        }
    }

    /// Parses a pixel length such as `100px`.
    pub fn parse_as_length(s: &str) -> (r: Option<(i64, Unit)>)
        ensures
            r == spec_parse_length(s@),
    {
        let n: usize = s.unicode_len();
        if n >= 2 && s.get_char(n - 2) == 'p' && s.get_char(n - 1) == 'x' {
            let body = s.substring_char(0, n - 2);
            proof {
                assert(body@ =~= s@.take(s@.len() - 2));
            }
            Some((scan::parse_int_lit(body), Unit::Px))
        } else {
            None
        }
    }

    /// A copy with the same content.
    pub fn clone_value(&self) -> (r: Value)
        ensures
            r@ == self@,
    {
        match self {
            Value::Keyword(s) => Value::Keyword(s.clone()),
            Value::Length(n, u) => Value::Length(*n, *u),
            Value::ColorValue(c) => Value::ColorValue(*c),
        }
    }

    /// The value in pixels: the length's count, 0 for anything else.
    pub fn to_px(&self) -> (r: i64)
        ensures
            r == spec_to_px(self@),
    {
        match self {
            Value::Length(n, _) => *n,
            _ => 0,
        }
    }
}

/// The value in pixels: the length's count, 0 for anything else.
pub open spec fn spec_to_px(v: ValueModel) -> i64 {
    match v {
        ValueModel::Length(n, _) => n,
        _ => 0,
    }
}

/// The empty simple selector: every constraint a wildcard.
pub open spec fn empty_selector() -> SelectorModel {
    SelectorModel { tag_name: None, id: None, class: Seq::empty() }
}

/// One declaration value classified: an empty string and anything that
/// is neither a color nor a length stay keywords; surrounding quotes
/// are stripped before the color and length readings are tried, but a
/// keyword keeps the string as written.
pub open spec fn spec_classify_value(s: Seq<char>) -> ValueModel {
    if s.len() == 0 {
        ValueModel::Keyword(s)
    } else {
        let inner = if (s[0] == '\'' || s[0] == '"') && s.len() >= 2 {
            s.subrange(1, s.len() - 1)
        } else {
            s
        };
        match spec_parse_color(inner) {
            Some(c) => ValueModel::ColorValue(c),
            None => match spec_parse_length(inner) {
                Some(l) => ValueModel::Length(l.0, l.1),
                None => ValueModel::Keyword(s),
            },
        }
    }
}

/// A simple selector read from `pos`: `#id`, `.class` and `*` parts
/// and a tag name, in any order, until a character that belongs to
/// none of them. Returns the selector and the position after it.
pub open spec fn spec_simple_selector(input: Seq<char>, pos: int, sel: SelectorModel) -> (
    SelectorModel,
    int,
)
    decreases input.len() - pos,
{
    if pos < 0 || pos >= input.len() {
        (sel, pos)
    } else {
        let c = input[pos];
        if c == '#' {
            let l = run_len(input.skip(pos + 1), CharClass::Identifier);
            spec_simple_selector(
                input,
                pos + 1 + l,
                SelectorModel { id: Some(input.subrange(pos + 1, pos + 1 + l)), ..sel },
            )
        } else if c == '.' {
            let l = run_len(input.skip(pos + 1), CharClass::Identifier);
            spec_simple_selector(
                input,
                pos + 1 + l,
                SelectorModel {
                    class: sel.class.push(input.subrange(pos + 1, pos + 1 + l)),
                    ..sel
                },
            )
        } else if c == '*' {
            spec_simple_selector(input, pos + 1, sel)
        } else if class_allows(CharClass::Identifier, c) {
            let l = 1 + run_len(input.skip(pos + 1), CharClass::Identifier);
            spec_simple_selector(
                input,
                pos + l,
                SelectorModel { tag_name: Some(input.subrange(pos, pos + l)), ..sel },
            )
        } else {
            (sel, pos)
        }
    }
}

/// The position after a simple selector never runs backwards nor past
/// the end.
pub broadcast proof fn lemma_spec_simple_selector_bounds(
    input: Seq<char>,
    pos: int,
    sel: SelectorModel,
)
    ensures
        0 <= pos <= input.len() ==> pos <= (#[trigger] spec_simple_selector(input, pos, sel)).1
            <= input.len(),
    decreases input.len() - pos,
{
    if 0 <= pos < input.len() {
        let c = input[pos];
        if c == '#' || c == '.' {
            let l = run_len(input.skip(pos + 1), CharClass::Identifier);
            lemma_spec_simple_selector_bounds(
                input,
                pos + 1 + l,
                SelectorModel { id: Some(input.subrange(pos + 1, pos + 1 + l)), ..sel },
            );
            lemma_spec_simple_selector_bounds(
                input,
                pos + 1 + l,
                SelectorModel {
                    class: sel.class.push(input.subrange(pos + 1, pos + 1 + l)),
                    ..sel
                },
            );
        } else if c == '*' {
            lemma_spec_simple_selector_bounds(input, pos + 1, sel);
        } else if class_allows(CharClass::Identifier, c) {
            let l = 1 + run_len(input.skip(pos + 1), CharClass::Identifier);
            lemma_spec_simple_selector_bounds(
                input,
                pos + l,
                SelectorModel { tag_name: Some(input.subrange(pos, pos + l)), ..sel },
            );
        }
    }
}

/// Order of the selector sort: a selector comes after another when its
/// specificity is strictly smaller, so sorting is descending and
/// selectors of equal specificity keep their source order.
pub open spec fn selector_after(y: SelectorModel, x: SelectorModel) -> bool {
    spec_lt(spec_specificity(y), spec_specificity(x))
}

/// The selector models sorted by descending specificity, stably.
pub open spec fn sort_models(sels: Seq<SelectorModel>) -> Seq<SelectorModel>
    decreases sels.len(),
{
    if sels.len() == 0 {
        Seq::empty()
    } else {
        insert_model(sort_models(sels.drop_last()), sels.last())
    }
}

/// Stable insertion for `sort_models`.
pub open spec fn insert_model(t: Seq<SelectorModel>, x: SelectorModel) -> Seq<SelectorModel>
    decreases t.len(),
{
    if t.len() == 0 {
        seq![x]
    } else if !selector_after(t.last(), x) {
        t.push(x)
    } else {
        insert_model(t.drop_last(), x).push(t.last())
    }
}

/// `v` forced into `lo ..= hi`. The parser specifications use it only
/// where the value is already in range, which the bounds lemmas show;
/// it makes termination of the specifications self-evident.
pub open spec fn clamped(lo: int, hi: int, v: int) -> int {
    if v < lo {
        lo
    } else if v > hi {
        hi
    } else {
        v
    }
}

/// A comma-separated selector list read from `pos`, ended by `{` (not
/// consumed), then sorted by descending specificity. Anything else
/// between selectors is an error.
pub open spec fn spec_selectors(input: Seq<char>, pos: int, acc: Seq<SelectorModel>) -> Result<
    (Seq<SelectorModel>, int),
    ParseError,
>
    decreases input.len() - pos,
{
    if pos < 0 {
        Err(ParseError::UnexpectedCharacter)
    } else {
        let sp = spec_simple_selector(input, pos, empty_selector());
        let p1 = clamped(pos, input.len() as int, sp.1);
        let p2 = p1 + run_len(input.skip(p1), CharClass::Whitespace);
        if p2 >= input.len() {
            Err(ParseError::UnexpectedEnd)
        } else if input[p2] == ',' {
            let p3 = p2 + 1 + run_len(input.skip(p2 + 1), CharClass::Whitespace);
            spec_selectors(input, p3, acc.push(sp.0))
        } else if input[p2] == '{' {
            Ok((sort_models(acc.push(sp.0)), p2))
        } else {
            Err(ParseError::UnexpectedCharacter)
        }
    }
}

/// One `name: value` declaration read from `pos`: blanks, the name,
/// blanks, `:`, blanks, then the raw value text, which is classified.
/// A missing `:` is an error.
pub open spec fn spec_one_declaration(input: Seq<char>, pos: int) -> Result<
    (DeclarationModel, int),
    ParseError,
> {
    let p1 = pos + run_len(input.skip(pos), CharClass::Whitespace);
    let nl = run_len(input.skip(p1), CharClass::Name);
    let name = input.subrange(p1, p1 + nl);
    let p2 = p1 + nl + run_len(input.skip(p1 + nl), CharClass::Whitespace);
    if p2 >= input.len() || input[p2] != ':' {
        Err(ParseError::UnexpectedCharacter)
    } else {
        let p3 = p2 + 1 + run_len(input.skip(p2 + 1), CharClass::Whitespace);
        let vl = run_len(input.skip(p3), CharClass::DeclValue);
        let vs = input.subrange(p3, p3 + vl);
        Ok((DeclarationModel { name, value: spec_classify_value(vs) }, p3 + vl))
    }
}

/// A successful declaration always moves the position forward, at
/// least past the `:`.
pub proof fn lemma_spec_one_declaration_bounds(input: Seq<char>, pos: int)
    requires
        0 <= pos <= input.len(),
    ensures
        match spec_one_declaration(input, pos) {
            Ok(dp) => pos < dp.1 <= input.len(),
            Err(_) => true,
        },
{
    broadcast use crate::scan::lemma_run_len_le;

}

/// The declarations of a block read from `pos` (after the `{`):
/// blank-separated, `;`-separated declarations up to the closing `}`,
/// which is consumed. An end of input before `}` is an error.
pub open spec fn spec_declarations(input: Seq<char>, pos: int, acc: Seq<DeclarationModel>)
    -> Result<(Seq<DeclarationModel>, int), ParseError>
    decreases input.len() - pos,
{
    if pos < 0 {
        Err(ParseError::UnexpectedCharacter)
    } else {
        let p1 = pos + run_len(input.skip(clamped(0, input.len() as int, pos)), CharClass::Whitespace);
        if p1 >= input.len() {
            Err(ParseError::UnexpectedEnd)
        } else if input[p1] == '}' {
            Ok((acc, p1 + 1))
        } else if input[p1] == ';' {
            spec_declarations(input, p1 + 1, acc)
        } else {
            match spec_one_declaration(input, p1) {
                Ok(dp) => spec_declarations(
                    input,
                    clamped(p1 + 1, input.len() as int, dp.1),
                    acc.push(dp.0),
                ),
                Err(e) => Err(e),
            }
        }
    }
}

/// The stylesheet parser: a cursor over the input text. `pos` counts
/// characters from the start of `input`.
pub struct Parser {
    pub pos: usize,
    pub input: String,
}

impl Parser {
    /// A parser at the start of the text.
    pub fn new(s: &str) -> (r: Parser)
        ensures
            r.pos == 0,
            r.input@ == s@,
    {
        Parser { pos: 0, input: s.to_owned() }
    }

    /// Whether the whole input has been consumed.
    pub fn eof(&self) -> (r: bool)
        ensures
            r == (self.pos >= self.input@.len()),
    {
        self.pos >= self.input.unicode_len()
    }

    /// The character at the cursor.
    pub fn next_char(&self) -> (c: char)
        requires
            self.pos < self.input@.len(),
        ensures
            c == self.input@[self.pos as int],
    {
        self.input.as_str().get_char(self.pos)
    }

    /// Consumes and returns the character at the cursor.
    pub fn consume_char(&mut self) -> (c: char)
        requires
            old(self).pos < old(self).input@.len(),
        ensures
            final(self).input == old(self).input,
            final(self).pos == old(self).pos + 1,
            c == old(self).input@[old(self).pos as int],
    {
        let c = self.input.as_str().get_char(self.pos);
        let _n: usize = self.input.unicode_len();
        self.pos = self.pos + 1;
        c
    }

    /// Consumes the longest run of characters in the class and returns
    /// it as a string.
    pub fn consume_while(&mut self, cls: CharClass) -> (r: String)
        requires
            old(self).pos <= old(self).input@.len(),
        ensures
            final(self).input == old(self).input,
            final(self).pos == old(self).pos + run_len(
                old(self).input@.skip(old(self).pos as int),
                cls,
            ),
            final(self).pos <= final(self).input@.len(),
            r@ == old(self).input@.subrange(old(self).pos as int, final(self).pos as int),
    {
        let n: usize = self.input.unicode_len();
        let start = self.pos;
        while self.pos < n && scan::char_in_class(cls, self.input.as_str().get_char(self.pos))
            invariant
                start <= self.pos <= n,
                n == self.input@.len(),
                self.input == old(self).input,
                start == old(self).pos,
                forall|j: int|
                    start <= j < self.pos ==> class_allows(cls, self.input@[j]),
            decreases n - self.pos,
        {
            self.pos = self.pos + 1;
        }
        proof {
            let t = self.input@.skip(start as int);
            assert(forall|j: int|
                0 <= j < self.pos - start ==> class_allows(cls, t[j]));
            if self.pos < n {
                assert(!class_allows(cls, t[self.pos - start]));
            }
            scan::lemma_run_len_unique(t, cls, self.pos - start);
            assert(t.take(self.pos - start) =~= self.input@.subrange(
                start as int,
                self.pos as int,
            ));
        }
        self.input.as_str().substring_char(start, self.pos).to_owned()
    }

    /// Consumes blanks.
    pub fn consume_whitespace(&mut self)
        requires
            old(self).pos <= old(self).input@.len(),
        ensures
            final(self).input == old(self).input,
            final(self).pos == old(self).pos + run_len(
                old(self).input@.skip(old(self).pos as int),
                CharClass::Whitespace,
            ),
            final(self).pos <= final(self).input@.len(),
    {
        let _ = self.consume_while(CharClass::Whitespace);
    }

    /// Consumes an identifier: letters, digits, `-` and `_`.
    pub fn parse_identifier(&mut self) -> (r: String)
        requires
            old(self).pos <= old(self).input@.len(),
        ensures
            final(self).input == old(self).input,
            final(self).pos == old(self).pos + run_len(
                old(self).input@.skip(old(self).pos as int),
                CharClass::Identifier,
            ),
            final(self).pos <= final(self).input@.len(),
            r@ == old(self).input@.subrange(old(self).pos as int, final(self).pos as int),
    {
        self.consume_while(CharClass::Identifier)
    }

    /// Parses one simple selector at the cursor.
    pub fn parse_simple_selector(&mut self) -> (r: SimpleSelector)
        requires
            old(self).pos <= old(self).input@.len(),
        ensures
            final(self).input == old(self).input,
            final(self).pos <= final(self).input@.len(),
            (r@, final(self).pos as int) == spec_simple_selector(
                old(self).input@,
                old(self).pos as int,
                empty_selector(),
            ),
    {
        let mut selector = SimpleSelector { tag_name: None, id: None, class: Vec::new() };
        proof {
            assert(selector@.class =~= empty_selector().class);
        }
        loop
            invariant
                self.input == old(self).input,
                self.pos <= self.input@.len(),
                spec_simple_selector(old(self).input@, old(self).pos as int, empty_selector())
                    == spec_simple_selector(self.input@, self.pos as int, selector@),
            ensures
                self.input == old(self).input,
                self.pos <= self.input@.len(),
                (selector@, self.pos as int) == spec_simple_selector(
                    old(self).input@,
                    old(self).pos as int,
                    empty_selector(),
                ),
            decreases self.input@.len() - self.pos,
        {
            if self.eof() {
                break;
            }
            let ghost pre = (selector@, self.pos as int);
            let c = self.next_char();
            if c == '#' {
                self.consume_char();
                let id = self.parse_identifier();
                proof {
                    assert(self.input@.skip(pre.1 + 1).take(self.pos - (pre.1 + 1))
                        =~= self.input@.subrange(pre.1 + 1, self.pos as int));
                }
                selector.id = Some(id);
            } else if c == '.' {
                self.consume_char();
                let cls = self.parse_identifier();
                selector.class.push(cls);
                proof {
                    assert(selector@.class =~= pre.0.class.push(
                        self.input@.subrange(pre.1 + 1, self.pos as int),
                    ));
                }
            } else if c == '*' {
                self.consume_char();
            } else if scan::char_in_class(CharClass::Identifier, c) {
                let t = self.parse_identifier();
                proof {
                    let rem = self.input@.skip(pre.1);
                    assert(rem[0] == c);
                    assert(run_len(rem, CharClass::Identifier) == 1 + run_len(
                        self.input@.skip(pre.1 + 1),
                        CharClass::Identifier,
                    )) by {
                        assert(rem.skip(1) =~= self.input@.skip(pre.1 + 1));
                    }
                }
                selector.tag_name = Some(t);
            } else {
                break;
            }
        }
        selector
    }
}

/// Splits insertion of a selector at the boundary scan position, like
/// the generic stable-insertion shape lemma.
pub proof fn lemma_insert_model_shape(t: Seq<SelectorModel>, x: SelectorModel, j: int)
    requires
        0 <= j <= t.len(),
        forall|m: int| j <= m < t.len() ==> selector_after(t[m], x),
        j > 0 ==> !selector_after(t[j - 1], x),
    ensures
        insert_model(t, x) == t.take(j) + seq![x] + t.skip(j),
    decreases t.len(),
{
    if t.len() == 0 {
        assert(insert_model(t, x) =~= t.take(j) + seq![x] + t.skip(j));
    } else if !selector_after(t.last(), x) {
        assert(j == t.len());
        assert(insert_model(t, x) =~= t.take(j) + seq![x] + t.skip(j));
    } else {
        lemma_insert_model_shape(t.drop_last(), x, j);
        assert(insert_model(t, x) =~= t.take(j) + seq![x] + t.skip(j));
    }
}

/// Stable insertion sort of selectors by descending specificity.
pub fn sort_selectors(v: Vec<Selector>) -> (r: Vec<Selector>)
    ensures
        r@.map_values(|s: Selector| s@) == sort_models(v@.map_values(|s: Selector| s@)),
{
    let ghost vm = v@.map_values(|s: Selector| s@);
    let mut sorted: Vec<Selector> = Vec::new();
    let mut rest = v;
    let ghost mut k: int = 0;
    proof {
        assert(rest@ =~= v@.skip(0));
        assert(sorted@.map_values(|s: Selector| s@) =~= sort_models(vm.take(0)));
    }
    while rest.len() > 0
        invariant
            0 <= k <= vm.len(),
            vm == v@.map_values(|s: Selector| s@),
            vm.len() == v@.len(),
            rest@ == v@.skip(k),
            sorted@.map_values(|s: Selector| s@) == sort_models(vm.take(k)),
        decreases rest@.len(),
    {
        let ghost sm = sorted@.map_values(|s: Selector| s@);
        let x = rest.remove(0);
        proof {
            assert(x == v@[k]);
            assert(x@ == vm[k]);
            assert(rest@ =~= v@.skip(k + 1));
        }
        let key = x.specificity();
        let mut j: usize = sorted.len();
        while j > 0 && crate::order::specificity_lt(sorted[j - 1].specificity(), key)
            invariant
                j <= sorted@.len(),
                sm == sorted@.map_values(|s: Selector| s@),
                sm.len() == sorted@.len(),
                key == spec_specificity(x@),
                forall|m: int| j <= m < sm.len() ==> selector_after(sm[m], x@),
            decreases j,
        {
            proof {
                assert(sm[j - 1] == sorted@[j - 1]@);
            }
            j -= 1;
        }
        proof {
            if j > 0 {
                assert(sm[j - 1] == sorted@[j - 1]@);
            }
            lemma_insert_model_shape(sm, x@, j as int);
        }
        let ghost xv = x@;
        let ghost spre = sorted@;
        sorted.insert(j, x);
        proof {
            assert(sorted@ == spre.insert(j as int, x));
            let sm2 = sorted@.map_values(|s: Selector| s@);
            assert forall|m: int| 0 <= m < sm2.len() implies sm2[m] == (sm.take(j as int) + seq![
                xv,
            ] + sm.skip(j as int))[m] by {
                if m < j {
                    assert(sorted@[m] == spre[m]);
                } else if m > j {
                    assert(sorted@[m] == spre[m - 1]);
                } else {
                    assert(sorted@[m] == x);
                }
            }
            assert(sm2 =~= sm.take(j as int) + seq![xv] + sm.skip(j as int));
            assert(vm.take(k + 1).drop_last() =~= vm.take(k));
            assert(vm.take(k + 1).last() == vm[k]);
            k = k + 1;
        }
    }
    proof {
        assert(vm.take(vm.len() as int) =~= vm);
    }
    sorted
}

/// The declarations block at `pos`: `{`, the declarations, `}`.
pub open spec fn spec_declarations_block(input: Seq<char>, pos: int) -> Result<
    (Seq<DeclarationModel>, int),
    ParseError,
> {
    if pos < 0 || pos >= input.len() || input[pos] != '{' {
        Err(ParseError::UnexpectedCharacter)
    } else {
        spec_declarations(input, pos + 1, Seq::empty())
    }
}

/// A whole rule read from `pos`: the selector list, then the
/// declarations block.
pub open spec fn spec_rule(input: Seq<char>, pos: int) -> Result<(RuleModel, int), ParseError> {
    match spec_selectors(input, pos, Seq::empty()) {
        Ok(sp) => match spec_declarations_block(input, sp.1) {
            Ok(dp) => Ok((RuleModel { selectors: sp.0, declarations: dp.0 }, dp.1)),
            Err(e) => Err(e),
        },
        Err(e) => Err(e),
    }
}

impl Parser {
    /// Parses the comma-separated selector list of a rule, up to its
    /// `{` (not consumed), and sorts it by descending specificity.
    pub fn parse_selectors(&mut self) -> (r: Result<Vec<Selector>, ParseError>)
        requires
            old(self).pos <= old(self).input@.len(),
        ensures
            final(self).input == old(self).input,
            final(self).pos <= final(self).input@.len(),
            match spec_selectors(old(self).input@, old(self).pos as int, Seq::empty()) {
                Ok(sp) => r is Ok && r->Ok_0@.map_values(|s: Selector| s@) == sp.0
                    && final(self).pos == sp.1,
                Err(e) => r is Err && r->Err_0 == e,
            },
    {
        let mut selectors: Vec<Selector> = Vec::new();
        proof {
            assert(selectors@.map_values(|s: Selector| s@) =~= Seq::<SelectorModel>::empty());
        }
        loop
            invariant
                self.input == old(self).input,
                self.pos <= self.input@.len(),
                spec_selectors(old(self).input@, old(self).pos as int, Seq::empty())
                    == spec_selectors(
                    self.input@,
                    self.pos as int,
                    selectors@.map_values(|s: Selector| s@),
                ),
            decreases self.input@.len() - self.pos,
        {
            let ghost pos0 = self.pos as int;
            let ghost accv = selectors@.map_values(|s: Selector| s@);
            proof {
                lemma_spec_simple_selector_bounds(self.input@, pos0, empty_selector());
            }
            let sel = self.parse_simple_selector();
            let ghost selv = sel@;
            selectors.push(Selector::Simple(sel));
            proof {
                assert(selectors@.map_values(|s: Selector| s@) =~= accv.push(selv));
            }
            self.consume_whitespace();
            if self.eof() {
                return Err(ParseError::UnexpectedEnd);
            }
            let c = self.next_char();
            if c == ',' {
                self.consume_char();
                self.consume_whitespace();
            } else if c == '{' {
                let sorted = sort_selectors(selectors);
                return Ok(sorted);
            } else {
                return Err(ParseError::UnexpectedCharacter);
            }
        }
    }

    /// Classifies the raw text of one declaration value.
    pub fn parse_one_declaration_value(value_string: String) -> (r: Value)
        ensures
            r@ == spec_classify_value(value_string@),
    {
        let n: usize = value_string.unicode_len();
        if n == 0 {
            return Value::Keyword(value_string);
        }
        let first = value_string.as_str().get_char(0);
        let inner: String = if (first == '\'' || first == '"') && n >= 2 {
            value_string.as_str().substring_char(1, n - 1).to_owned()
        } else {
            value_string.as_str().substring_char(0, n).to_owned()
        };
        proof {
            if (first == '\'' || first == '"') && n >= 2 {
                assert(inner@ =~= value_string@.subrange(1, value_string@.len() - 1));
            } else {
                assert(inner@ =~= value_string@);
            }
        }
        match Value::parse_as_color(inner.as_str()) {
            Some(c) => Value::ColorValue(c),
            None => match Value::parse_as_length(inner.as_str()) {
                Some(l) => Value::Length(l.0, l.1),
                None => Value::Keyword(value_string),
            },
        }
    }

    /// Parses one `name: value` declaration at the cursor.
    pub fn parse_one_declaration(&mut self) -> (r: Result<Declaration, ParseError>)
        requires
            old(self).pos <= old(self).input@.len(),
        ensures
            final(self).input == old(self).input,
            final(self).pos <= final(self).input@.len(),
            match spec_one_declaration(old(self).input@, old(self).pos as int) {
                Ok(dp) => r is Ok && r->Ok_0@ == dp.0 && final(self).pos == dp.1,
                Err(e) => r is Err && r->Err_0 == e,
            },
    {
        self.consume_whitespace();
        let name = self.consume_while(CharClass::Name);
        self.consume_whitespace();
        if self.eof() {
            return Err(ParseError::UnexpectedCharacter);
        }
        let c = self.consume_char();
        if c != ':' {
            return Err(ParseError::UnexpectedCharacter);
        }
        self.consume_whitespace();
        let value_str = self.consume_while(CharClass::DeclValue);
        let value = Parser::parse_one_declaration_value(value_str);
        Ok(Declaration { name, value })
    }

    /// Parses the `{ ... }` declarations block at the cursor.
    pub fn parse_declarations(&mut self) -> (r: Result<Vec<Declaration>, ParseError>)
        requires
            old(self).pos <= old(self).input@.len(),
        ensures
            final(self).input == old(self).input,
            final(self).pos <= final(self).input@.len(),
            match spec_declarations_block(old(self).input@, old(self).pos as int) {
                Ok(dp) => r is Ok && r->Ok_0@.map_values(|d: Declaration| d@) == dp.0
                    && final(self).pos == dp.1,
                Err(e) => r is Err && r->Err_0 == e,
            },
    {
        if self.eof() {
            return Err(ParseError::UnexpectedCharacter);
        }
        let b = self.consume_char();
        if b != '{' {
            return Err(ParseError::UnexpectedCharacter);
        }
        let mut declarations: Vec<Declaration> = Vec::new();
        proof {
            assert(declarations@.map_values(|d: Declaration| d@)
                =~= Seq::<DeclarationModel>::empty());
        }
        loop
            invariant
                self.input == old(self).input,
                self.pos <= self.input@.len(),
                spec_declarations_block(old(self).input@, old(self).pos as int)
                    == spec_declarations(
                    self.input@,
                    self.pos as int,
                    declarations@.map_values(|d: Declaration| d@),
                ),
            decreases self.input@.len() - self.pos,
        {
            let ghost pos0 = self.pos as int;
            let ghost accv = declarations@.map_values(|d: Declaration| d@);
            self.consume_whitespace();
            if self.eof() {
                return Err(ParseError::UnexpectedEnd);
            }
            let c = self.next_char();
            if c == '}' {
                self.consume_char();
                return Ok(declarations);
            } else if c == ';' {
                self.consume_char();
            } else {
                proof {
                    lemma_spec_one_declaration_bounds(self.input@, self.pos as int);
                }
                match self.parse_one_declaration() {
                    Ok(d) => {
                        let ghost dv = d@;
                        declarations.push(d);
                        proof {
                            assert(declarations@.map_values(|d2: Declaration| d2@)
                                =~= accv.push(dv));
                        }
                    },
                    Err(e) => {
                        return Err(e);
                    },
                }
            }
        }
    }

    /// Parses one whole rule: selectors, then declarations.
    pub fn parse_rule(&mut self) -> (r: Result<Rule, ParseError>)
        requires
            old(self).pos <= old(self).input@.len(),
        ensures
            final(self).input == old(self).input,
            final(self).pos <= final(self).input@.len(),
            match spec_rule(old(self).input@, old(self).pos as int) {
                Ok(rp) => r is Ok && r->Ok_0@ == rp.0 && final(self).pos == rp.1,
                Err(e) => r is Err && r->Err_0 == e,
            },
    {
        match self.parse_selectors() {
            Ok(selectors) => {
                match self.parse_declarations() {
                    Ok(declarations) => Ok(Rule { selectors, declarations }),
                    Err(e) => Err(e),
                }
            },
            Err(e) => Err(e),
        }
    }
}

} // verus!
