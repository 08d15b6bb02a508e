//! The markup parser: builds a document tree from tag text.
//!
//! A recursive-descent parser over characters: elements with
//! attributes, text runs, comments, and a fixed set of void tags that
//! may self-close. Malformed input yields an error instead of a crash.

use vstd::prelude::*;
use crate::dom;
use crate::dom::{AttrMap, AttrsModel, Node, NodeModel, NodeTypeModel, ElementModel, nodes_view};
use crate::assoc::{al_insert, al_wf};
use crate::scan;
use crate::scan::{CharClass, ParseError, run_len, class_allows};
use crate::css::clamped;

verus! {

broadcast use crate::scan::lemma_run_len_le;

/// Tags that may self-close with `/>` and hold no children.
pub open spec fn is_void_tag(t: Seq<char>) -> bool {
    t == "meta"@ || t == "br"@ || t == "link"@
}

/// An element node model.
pub open spec fn element_model(
    tag: Seq<char>,
    attrs: AttrsModel,
    children: Seq<NodeModel>,
) -> NodeModel {
    NodeModel {
        node_type: NodeTypeModel::Element(ElementModel { tag_name: tag, attributes: attrs }),
        children,
    }
}

/// A text run read from `pos`: leading blanks are dropped, then
/// everything up to the next `<` is the text.
pub open spec fn spec_parse_text(input: Seq<char>, pos: int) -> (NodeModel, int) {
    let p1 = pos + run_len(input.skip(pos), CharClass::Whitespace);
    let tl = run_len(input.skip(p1), CharClass::NotLt);
    (
        NodeModel { node_type: NodeTypeModel::Text(input.subrange(p1, p1 + tl)), children: Seq::empty() },
        p1 + tl,
    )
}

/// Whether `-->` starts at position `k`.
pub open spec fn marker_at(input: Seq<char>, k: int) -> bool {
    k + 3 <= input.len() && input[k] == '-' && input[k + 1] == '-' && input[k + 2] == '>'
}

/// First position at or after `pos` where `-->` starts; the input
/// length when there is none.
pub open spec fn comment_end(input: Seq<char>, pos: int) -> int
    decreases input.len() - pos,
{
    if pos < 0 || pos >= input.len() {
        pos
    } else if marker_at(input, pos) {
        pos
    } else {
        comment_end(input, pos + 1)
    }
}

/// `comment_end` stays in range, marks a `-->` when it is not the
/// length, and no earlier position marks one.
pub proof fn lemma_comment_end_props(input: Seq<char>, pos: int)
    requires
        0 <= pos <= input.len(),
    ensures
        pos <= comment_end(input, pos) <= input.len(),
        comment_end(input, pos) < input.len() ==> marker_at(input, comment_end(input, pos)),
        forall|k: int| pos <= k < comment_end(input, pos) ==> !marker_at(input, k),
    decreases input.len() - pos,
{
    if pos < input.len() && !marker_at(input, pos) {
        lemma_comment_end_props(input, pos + 1);
    }
}

/// Any position with the properties of `lemma_comment_end_props` is
/// `comment_end`.
pub proof fn lemma_comment_end_unique(input: Seq<char>, pos: int, j: int)
    requires
        0 <= pos <= j <= input.len(),
        forall|k: int| pos <= k < j ==> !marker_at(input, k),
        j < input.len() ==> marker_at(input, j),
    ensures
        comment_end(input, pos) == j,
{
    lemma_comment_end_props(input, pos);
    let e = comment_end(input, pos);
    if e < j {
        assert(!marker_at(input, e));
    }
    if e > j {
        assert(!marker_at(input, j));
    }
}

/// A comment read from `pos` (at its `<!--`): the text up to the next
/// `-->`. An unterminated comment is an error.
pub open spec fn spec_parse_comment(input: Seq<char>, pos: int) -> Result<
    (NodeModel, int),
    ParseError,
> {
    let p1 = pos + 4;
    let e = comment_end(input, clamped(0, input.len() as int, p1));
    if e + 3 > input.len() {
        Err(ParseError::UnexpectedEnd)
    } else {
        Ok(
            (
                NodeModel {
                    node_type: NodeTypeModel::Comment(input.subrange(p1, e)),
                    children: Seq::empty(),
                },
                e + 3,
            ),
        )
    }
}

/// One quoted attribute value read from `pos`: a `"` or `'`, the
/// value, and the same quote again.
pub open spec fn spec_attr_value(input: Seq<char>, pos: int) -> Result<
    (Seq<char>, int),
    ParseError,
> {
    if pos < 0 || pos >= input.len() {
        Err(ParseError::UnexpectedEnd)
    } else {
        let q = input[pos];
        if q != '"' && q != '\'' {
            Err(ParseError::UnexpectedCharacter)
        } else {
            let vl = run_len(input.skip(pos + 1), CharClass::NotChar(q));
            if pos + 1 + vl >= input.len() {
                Err(ParseError::UnexpectedEnd)
            } else {
                Ok((input.subrange(pos + 1, pos + 1 + vl), pos + 1 + vl + 1))
            }
        }
    }
}

/// One `name="value"` attribute read from `pos`. A name not followed
/// by `=` is an error.
pub open spec fn spec_attr(input: Seq<char>, pos: int) -> Result<
    ((Seq<char>, Seq<char>), int),
    ParseError,
> {
    let nl = run_len(input.skip(pos), CharClass::Name);
    let name = input.subrange(pos, pos + nl);
    let p2 = pos + nl + run_len(input.skip(pos + nl), CharClass::Whitespace);
    if p2 >= input.len() || input[p2] != '=' {
        Err(ParseError::MissingAttributeEquals)
    } else {
        match spec_attr_value(input, p2 + 1) {
            Ok(vp) => Ok(((name, vp.0), vp.1)),
            Err(e) => Err(e),
        }
    }
}

/// A successful attribute always moves the position forward.
pub proof fn lemma_spec_attr_bounds(input: Seq<char>, pos: int)
    requires
        0 <= pos <= input.len(),
    ensures
        match spec_attr(input, pos) {
            Ok(ap) => pos < ap.1 <= input.len(),
            Err(_) => true,
        },
{
    broadcast use crate::scan::lemma_run_len_le;

}

/// The attribute list of a tag read from `pos`, ended by `>` or `/`
/// (not consumed). Later bindings of a name replace earlier ones.
pub open spec fn spec_attrs(input: Seq<char>, pos: int, acc: AttrsModel) -> Result<
    (AttrsModel, int),
    ParseError,
>
    decreases input.len() - pos,
{
    if pos < 0 {
        Err(ParseError::UnexpectedCharacter)
    } else {
        let p1 = pos + run_len(input.skip(clamped(0, input.len() as int, pos)), CharClass::Whitespace);
        if p1 >= input.len() {
            Err(ParseError::UnexpectedEnd)
        } else if input[p1] == '>' || input[p1] == '/' {
            Ok((acc, p1))
        } else {
            match spec_attr(input, p1) {
                Ok(ap) => spec_attrs(
                    input,
                    clamped(p1 + 1, input.len() as int, ap.1),
                    al_insert(acc, ap.0.0, ap.0.1),
                ),
                Err(e) => Err(e),
            }
        }
    }
}

/// A successful attribute list never runs backwards.
pub proof fn lemma_spec_attrs_bounds(input: Seq<char>, pos: int, acc: AttrsModel)
    requires
        0 <= pos <= input.len(),
    ensures
        match spec_attrs(input, pos, acc) {
            Ok(ap) => pos <= ap.1 <= input.len(),
            Err(_) => true,
        },
    decreases input.len() - pos,
{
    broadcast use crate::scan::lemma_run_len_le;

    let p1 = pos + run_len(input.skip(pos), CharClass::Whitespace);
    if p1 < input.len() && !(input[p1] == '>' || input[p1] == '/') {
        match spec_attr(input, p1) {
            Ok(ap) => {
                lemma_spec_attr_bounds(input, p1);
                lemma_spec_attrs_bounds(
                    input,
                    clamped(p1 + 1, input.len() as int, ap.1),
                    al_insert(acc, ap.0.0, ap.0.1),
                );
            },
            Err(_) => {},
        }
    }
}

/// One node read from `pos`: a comment at `<!--`, an element at any
/// other `<`, and a text run otherwise. The end of input is an error.
pub open spec fn spec_parse_node(input: Seq<char>, pos: int) -> Result<(NodeModel, int), ParseError>
    decreases input.len() - pos, 1int,
{
    if pos < 0 || pos >= input.len() {
        Err(ParseError::UnexpectedEnd)
    } else if input[pos] == '<' {
        if pos + 4 <= input.len() && input.subrange(pos, pos + 4) == "<!--"@ {
            spec_parse_comment(input, pos)
        } else {
            spec_parse_element(input, pos)
        }
    } else {
        Ok(spec_parse_text(input, pos))
    }
}

/// An element read from `pos` (at its `<`): tag name, attributes, then
/// either `/>` for a void tag, or `>`, the children, and the matching
/// closing tag. A closing tag with another name is an error.
pub open spec fn spec_parse_element(input: Seq<char>, pos: int) -> Result<
    (NodeModel, int),
    ParseError,
>
    decreases input.len() - pos, 0int,
{
    if pos < 0 || pos >= input.len() || input[pos] != '<' {
        Err(ParseError::UnexpectedCharacter)
    } else {
        let p1 = pos + 1;
        let tl = run_len(input.skip(p1), CharClass::Name);
        let tag = input.subrange(p1, p1 + tl);
        let p2 = p1 + tl + run_len(input.skip(p1 + tl), CharClass::Whitespace);
        match spec_attrs(input, p2, Seq::empty()) {
            Err(e) => Err(e),
            Ok(ap) => {
                let p3 = clamped(p1, input.len() as int, ap.1);
                let p4 = p3 + run_len(input.skip(p3), CharClass::Whitespace);
                if is_void_tag(tag) && p4 + 2 <= input.len() && input[p4] == '/' && input[p4 + 1]
                    == '>' {
                    Ok((element_model(tag, ap.0, Seq::empty()), p4 + 2))
                } else if p4 >= input.len() || input[p4] != '>' {
                    Err(ParseError::UnexpectedCharacter)
                } else {
                    match spec_parse_nodes(input, p4 + 1, Seq::empty()) {
                        Err(e) => Err(e),
                        Ok(np) => {
                            let p5 = np.1;
                            if p5 + 2 > input.len() || input[p5] != '<' || input[p5 + 1] != '/' {
                                Err(ParseError::UnexpectedEnd)
                            } else {
                                let p6 = p5 + 2;
                                let cl = run_len(input.skip(p6), CharClass::Name);
                                let closing = input.subrange(p6, p6 + cl);
                                if closing != tag {
                                    Err(ParseError::UnbalancedTag)
                                } else if p6 + cl >= input.len() || input[p6 + cl] != '>' {
                                    Err(ParseError::UnexpectedCharacter)
                                } else {
                                    Ok((element_model(tag, ap.0, np.0), p6 + cl + 1))
                                }
                            }
                        },
                    }
                }
            },
        }
    }
}

/// The node sequence read from `pos`: nodes separated by blanks, up to
/// the end of input or a closing tag (`</`, not consumed).
pub open spec fn spec_parse_nodes(input: Seq<char>, pos: int, acc: Seq<NodeModel>) -> Result<
    (Seq<NodeModel>, int),
    ParseError,
>
    decreases input.len() - pos, 2int,
{
    if pos < 0 {
        Err(ParseError::UnexpectedCharacter)
    } else {
        let p1 = pos + run_len(input.skip(clamped(0, input.len() as int, pos)), CharClass::Whitespace);
        if p1 >= input.len() || (p1 + 2 <= input.len() && input[p1] == '<' && input[p1 + 1] == '/') {
            Ok((acc, p1))
        } else {
            match spec_parse_node(input, p1) {
                Err(e) => Err(e),
                Ok(np) => spec_parse_nodes(
                    input,
                    clamped(p1 + 1, input.len() as int, np.1),
                    acc.push(np.0),
                ),
            }
        }
    }
}

/// The document read from the whole input: its nodes; a single node
/// stands alone, several are wrapped in an `html` element.
pub open spec fn spec_parse(input: Seq<char>) -> Result<NodeModel, ParseError> {
    match spec_parse_nodes(input, 0, Seq::empty()) {
        Err(e) => Err(e),
        Ok(np) => {
            if np.0.len() == 1 {
                Ok(np.0[0])
            } else {
                Ok(element_model("html"@, Seq::empty(), np.0))
            }
        },
    }
}

/// A successful node always moves the position forward; a successful
/// node list never runs backwards; a successful element moves forward.
pub proof fn lemma_spec_parse_node_bounds(input: Seq<char>, pos: int)
    requires
        0 <= pos <= input.len(),
    ensures
        match spec_parse_node(input, pos) {
            Ok(np) => pos < np.1 <= input.len(),
            Err(_) => true,
        },
    decreases input.len() - pos, 1int,
{
    broadcast use crate::scan::lemma_run_len_le;

    if 0 <= pos < input.len() {
        if input[pos] == '<' {
            if pos + 4 <= input.len() && input.subrange(pos, pos + 4) == "<!--"@ {
                lemma_comment_end_props(input, pos + 4);
            } else {
                lemma_spec_parse_element_bounds(input, pos);
            }
        } else {
            let p1 = pos + run_len(input.skip(pos), CharClass::Whitespace);
            let rem = input.skip(pos);
            if run_len(rem, CharClass::Whitespace) == 0 {
                assert(rem[0] == input[pos]);
                let rem1 = input.skip(p1);
                assert(rem1[0] == input[p1]);
                assert(class_allows(CharClass::NotLt, rem1[0]));
                assert(run_len(rem1, CharClass::NotLt) >= 1);
            }
        }
    }
}

/// See `lemma_spec_parse_node_bounds`.
pub proof fn lemma_spec_parse_element_bounds(input: Seq<char>, pos: int)
    requires
        0 <= pos <= input.len(),
    ensures
        match spec_parse_element(input, pos) {
            Ok(np) => pos < np.1 <= input.len(),
            Err(_) => true,
        },
    decreases input.len() - pos, 0int,
{
    broadcast use crate::scan::lemma_run_len_le;

    if 0 <= pos < input.len() && input[pos] == '<' {
        let p1 = pos + 1;
        let tl = run_len(input.skip(p1), CharClass::Name);
        let p2 = p1 + tl + run_len(input.skip(p1 + tl), CharClass::Whitespace);
        lemma_spec_attrs_bounds(input, p2, Seq::empty());
        match spec_attrs(input, p2, Seq::empty()) {
            Err(_) => {},
            Ok(ap) => {
                let p3 = clamped(p1, input.len() as int, ap.1);
                let p4 = p3 + run_len(input.skip(p3), CharClass::Whitespace);
                if p4 < input.len() && input[p4] == '>' {
                    lemma_spec_parse_nodes_bounds(input, p4 + 1, Seq::empty());
                }
            },
        }
    }
}

/// See `lemma_spec_parse_node_bounds`.
pub proof fn lemma_spec_parse_nodes_bounds(input: Seq<char>, pos: int, acc: Seq<NodeModel>)
    requires
        0 <= pos <= input.len(),
    ensures
        match spec_parse_nodes(input, pos, acc) {
            Ok(np) => pos <= np.1 <= input.len(),
            Err(_) => true,
        },
    decreases input.len() - pos, 2int,
{
    broadcast use crate::scan::lemma_run_len_le;

    let p1 = pos + run_len(input.skip(pos), CharClass::Whitespace);
    if !(p1 >= input.len() || (p1 + 2 <= input.len() && input[p1] == '<' && input[p1 + 1] == '/')) {
        lemma_spec_parse_node_bounds(input, p1);
        match spec_parse_node(input, p1) {
            Err(_) => {},
            Ok(np) => {
                lemma_spec_parse_nodes_bounds(
                    input,
                    clamped(p1 + 1, input.len() as int, np.1),
                    acc.push(np.0),
                );
            },
        }
    }
}

/// The markup parser: a cursor over the input text. `pos` counts
/// characters from the start of `input`.
pub struct Parser {
    pub pos: usize,
    pub input: String,
}

impl Parser {
    /// A parser at the start of the text.
    pub fn new(source: &str) -> (r: Parser)
        ensures
            r.pos == 0,
            r.input@ == source@,
    {
        Parser { pos: 0, input: source.to_owned() }
    }

    /// Whether the whole input has been consumed.
    pub fn eof(&self) -> (r: bool)
        ensures
            r == (self.pos >= self.input@.len()),
    {
        self.pos >= self.input.unicode_len()
    }

    /// The character at the cursor.
    pub fn next_char(&self) -> (c: char)
        requires
            self.pos < self.input@.len(),
        ensures
            c == self.input@[self.pos as int],
    {
        self.input.as_str().get_char(self.pos)
    }

    /// Whether the text at the cursor starts with `s`.
    pub fn starts_with(&self, s: &str) -> (r: bool)
        requires
            self.pos <= self.input@.len(),
        ensures
            r == (self.pos + s@.len() <= self.input@.len() && self.input@.subrange(
                self.pos as int,
                self.pos + s@.len(),
            ) == s@),
    {
        let m: usize = s.unicode_len();
        let n: usize = self.input.unicode_len();
        if m > n - self.pos {
            return false;
        }
        let mut i: usize = 0;
        while i < m
            invariant
                i <= m,
                m == s@.len(),
                n == self.input@.len(),
                self.pos + m <= n,
                forall|j: int| 0 <= j < i ==> self.input@[self.pos + j] == s@[j],
            decreases m - i,
        {
            if self.input.as_str().get_char(self.pos + i) != s.get_char(i) {
                proof {
                    assert(self.input@.subrange(self.pos as int, self.pos + s@.len())[i as int]
                        == self.input@[self.pos + i]);
                }
                return false;
            }
            i += 1;
        }
        proof {
            assert(self.input@.subrange(self.pos as int, self.pos + s@.len()) =~= s@);
        }
        true
    }

    /// Consumes and returns the character at the cursor.
    pub fn consume_char(&mut self) -> (c: char)
        requires
            old(self).pos < old(self).input@.len(),
        ensures
            final(self).input == old(self).input,
            final(self).pos == old(self).pos + 1,
            c == old(self).input@[old(self).pos as int],
    {
        let c = self.input.as_str().get_char(self.pos);
        let _n: usize = self.input.unicode_len();
        self.pos = self.pos + 1;
        c
    }

    /// Consumes the longest run of characters in the class and returns
    /// it as a string.
    pub fn consume_while(&mut self, cls: CharClass) -> (r: String)
        requires
            old(self).pos <= old(self).input@.len(),
        ensures
            final(self).input == old(self).input,
            final(self).pos == old(self).pos + run_len(
                old(self).input@.skip(old(self).pos as int),
                cls,
            ),
            final(self).pos <= final(self).input@.len(),
            r@ == old(self).input@.subrange(old(self).pos as int, final(self).pos as int),
    {
        let n: usize = self.input.unicode_len();
        let start = self.pos;
        while self.pos < n && scan::char_in_class(cls, self.input.as_str().get_char(self.pos))
            invariant
                start <= self.pos <= n,
                n == self.input@.len(),
                self.input == old(self).input,
                start == old(self).pos,
                forall|j: int| start <= j < self.pos ==> class_allows(cls, self.input@[j]),
            decreases n - self.pos,
        {
            self.pos = self.pos + 1;
        }
        proof {
            let t = self.input@.skip(start as int);
            assert(forall|j: int| 0 <= j < self.pos - start ==> class_allows(cls, t[j]));
            if self.pos < n {
                assert(!class_allows(cls, t[self.pos - start]));
            }
            scan::lemma_run_len_unique(t, cls, self.pos - start);
            assert(t.take(self.pos - start) =~= self.input@.subrange(
                start as int,
                self.pos as int,
            ));
        }
        self.input.as_str().substring_char(start, self.pos).to_owned()
    }

    /// Consumes up to (not including) the next `-->`, or to the end.
    pub fn consume_until_comment_close(&mut self) -> (r: String)
        requires
            old(self).pos <= old(self).input@.len(),
        ensures
            final(self).input == old(self).input,
            final(self).pos == comment_end(old(self).input@, old(self).pos as int),
            final(self).pos <= final(self).input@.len(),
            r@ == old(self).input@.subrange(old(self).pos as int, final(self).pos as int),
    {
        let n: usize = self.input.unicode_len();
        let start = self.pos;
        loop
            invariant_except_break
                start <= self.pos <= n,
                n == self.input@.len(),
                self.input == old(self).input,
                start == old(self).pos,
                forall|j: int| start <= j < self.pos ==> !marker_at(self.input@, j),
            ensures
                self.input == old(self).input,
                start == old(self).pos,
                start <= self.pos <= n,
                n == self.input@.len(),
                self.pos == comment_end(self.input@, start as int),
            decreases n - self.pos,
        {
            if self.pos >= n {
                proof {
                    lemma_comment_end_unique(self.input@, start as int, self.pos as int);
                }
                break;
            }
            if self.starts_with("-->") {
                proof {
                    reveal_strlit("-->");
                    let sub = self.input@.subrange(self.pos as int, self.pos + 3);
                    assert(sub[0] == self.input@[self.pos as int]);
                    assert(sub[1] == self.input@[self.pos + 1]);
                    assert(sub[2] == self.input@[self.pos + 2]);
                    assert(marker_at(self.input@, self.pos as int));
                    lemma_comment_end_unique(self.input@, start as int, self.pos as int);
                }
                break;
            }
            proof {
                reveal_strlit("-->");
                if marker_at(self.input@, self.pos as int) {
                    assert(self.input@.subrange(self.pos as int, self.pos + 3) =~= "-->"@);
                }
            }
            self.pos = self.pos + 1;
        }
        proof {
            lemma_comment_end_props(self.input@, start as int);
        }
        self.input.as_str().substring_char(start, self.pos).to_owned()
    }

    /// Consumes blanks.
    pub fn consume_whitespace(&mut self)
        requires
            old(self).pos <= old(self).input@.len(),
        ensures
            final(self).input == old(self).input,
            final(self).pos == old(self).pos + run_len(
                old(self).input@.skip(old(self).pos as int),
                CharClass::Whitespace,
            ),
            final(self).pos <= final(self).input@.len(),
    {
        let _ = self.consume_while(CharClass::Whitespace);
    }

    /// Consumes a tag name: letters, digits and `-`.
    pub fn parse_tag_name(&mut self) -> (r: String)
        requires
            old(self).pos <= old(self).input@.len(),
        ensures
            final(self).input == old(self).input,
            final(self).pos == old(self).pos + run_len(
                old(self).input@.skip(old(self).pos as int),
                CharClass::Name,
            ),
            final(self).pos <= final(self).input@.len(),
            r@ == old(self).input@.subrange(old(self).pos as int, final(self).pos as int),
    {
        self.consume_while(CharClass::Name)
    }

    /// Parses a text node at the cursor.
    pub fn parse_text(&mut self) -> (r: Node)
        requires
            old(self).pos <= old(self).input@.len(),
        ensures
            final(self).input == old(self).input,
            final(self).pos <= final(self).input@.len(),
            (r@, final(self).pos as int) == spec_parse_text(old(self).input@, old(self).pos as int),
    {
        self.consume_whitespace();
        let t = self.consume_while(CharClass::NotLt);
        let r = dom::text(t);
        proof {
            assert(r@ == spec_parse_text(old(self).input@, old(self).pos as int).0);
        }
        r
    }

    /// Parses a comment node at the cursor, which must sit at `<!--`.
    pub fn parse_comment(&mut self) -> (r: Result<Node, ParseError>)
        requires
            old(self).pos + 4 <= old(self).input@.len(),
            old(self).input@.subrange(old(self).pos as int, old(self).pos + 4) == "<!--"@,
        ensures
            final(self).input == old(self).input,
            final(self).pos <= final(self).input@.len(),
            match spec_parse_comment(old(self).input@, old(self).pos as int) {
                Ok(np) => r is Ok && r->Ok_0@ == np.0 && final(self).pos == np.1,
                Err(e) => r is Err && r->Err_0 == e,
            },
    {
        self.consume_char();
        self.consume_char();
        self.consume_char();
        self.consume_char();
        let content = self.consume_until_comment_close();
        if self.eof() {
            proof {
                lemma_comment_end_props(old(self).input@, old(self).pos + 4);
            }
            return Err(ParseError::UnexpectedEnd);
        }
        proof {
            lemma_comment_end_props(old(self).input@, old(self).pos + 4);
        }
        self.consume_char();
        self.consume_char();
        self.consume_char();
        let r = dom::comment(content);
        proof {
            assert(r@ == spec_parse_comment(
                old(self).input@,
                old(self).pos as int,
            )->Ok_0.0);
        }
        Ok(r)
    }

    /// Parses one quoted attribute value at the cursor.
    pub fn parse_attr_value(&mut self) -> (r: Result<String, ParseError>)
        requires
            old(self).pos <= old(self).input@.len(),
        ensures
            final(self).input == old(self).input,
            final(self).pos <= final(self).input@.len(),
            match spec_attr_value(old(self).input@, old(self).pos as int) {
                Ok(vp) => r is Ok && r->Ok_0@ == vp.0 && final(self).pos == vp.1,
                Err(e) => r is Err && r->Err_0 == e,
            },
    {
        if self.eof() {
            return Err(ParseError::UnexpectedEnd);
        }
        let open_quote = self.consume_char();
        if open_quote != '"' && open_quote != '\'' {
            return Err(ParseError::UnexpectedCharacter);
        }
        let value = self.consume_while(CharClass::NotChar(open_quote));
        if self.eof() {
            return Err(ParseError::UnexpectedEnd);
        }
        self.consume_char();
        Ok(value)
    }

    /// Parses one `name="value"` attribute at the cursor.
    pub fn parse_attr(&mut self) -> (r: Result<(String, String), ParseError>)
        requires
            old(self).pos <= old(self).input@.len(),
        ensures
            final(self).input == old(self).input,
            final(self).pos <= final(self).input@.len(),
            match spec_attr(old(self).input@, old(self).pos as int) {
                Ok(ap) => r is Ok && (r->Ok_0.0@, r->Ok_0.1@) == ap.0 && final(self).pos == ap.1,
                Err(e) => r is Err && r->Err_0 == e,
            },
    {
        let name = self.parse_tag_name();
        self.consume_whitespace();
        if self.eof() {
            return Err(ParseError::MissingAttributeEquals);
        }
        let c = self.consume_char();
        if c != '=' {
            return Err(ParseError::MissingAttributeEquals);
        }
        match self.parse_attr_value() {
            Ok(value) => Ok((name, value)),
            Err(e) => Err(e),
        }
    }

    /// Parses the attribute list of a tag, up to its `>` or `/`.
    pub fn parse_attributes(&mut self) -> (r: Result<AttrMap, ParseError>)
        requires
            old(self).pos <= old(self).input@.len(),
        ensures
            final(self).input == old(self).input,
            final(self).pos <= final(self).input@.len(),
            match spec_attrs(old(self).input@, old(self).pos as int, Seq::empty()) {
                Ok(ap) => r is Ok && r->Ok_0@ == ap.0 && al_wf(r->Ok_0@) && final(self).pos
                    == ap.1,
                Err(e) => r is Err && r->Err_0 == e,
            },
    {
        let mut attrs = AttrMap::new();
        loop
            invariant
                self.input == old(self).input,
                self.pos <= self.input@.len(),
                al_wf(attrs@),
                spec_attrs(old(self).input@, old(self).pos as int, Seq::empty()) == spec_attrs(
                    self.input@,
                    self.pos as int,
                    attrs@,
                ),
            decreases self.input@.len() - self.pos,
        {
            let ghost pos0 = self.pos as int;
            self.consume_whitespace();
            if self.eof() {
                return Err(ParseError::UnexpectedEnd);
            }
            let c = self.next_char();
            if c == '>' || c == '/' {
                return Ok(attrs);
            }
            proof {
                lemma_spec_attr_bounds(self.input@, self.pos as int);
            }
            match self.parse_attr() {
                Ok(nv) => {
                    attrs.insert(nv.0, nv.1);
                },
                Err(e) => {
                    return Err(e);
                },
            }
        }
    }

    /// Parses one node at the cursor.
    pub fn parse_node(&mut self) -> (r: Result<Node, ParseError>)
        requires
            old(self).pos <= old(self).input@.len(),
        ensures
            final(self).input == old(self).input,
            final(self).pos <= final(self).input@.len(),
            match spec_parse_node(old(self).input@, old(self).pos as int) {
                Ok(np) => r is Ok && r->Ok_0@ == np.0 && final(self).pos == np.1,
                Err(e) => r is Err && r->Err_0 == e,
            },
        decreases old(self).input@.len() - old(self).pos, 1int,
    {
        if self.eof() {
            return Err(ParseError::UnexpectedEnd);
        }
        if self.next_char() == '<' {
            if self.starts_with("<!--") {
                proof {
                    reveal_strlit("<!--");
                }
                self.parse_comment()
            } else {
                proof {
                    reveal_strlit("<!--");
                }
                self.parse_element()
            }
        } else {
            let n = self.parse_text();
            Ok(n)
        }
    }

    /// Parses an element at the cursor, which must sit at `<`.
    pub fn parse_element(&mut self) -> (r: Result<Node, ParseError>)
        requires
            old(self).pos < old(self).input@.len(),
            old(self).input@[old(self).pos as int] == '<',
        ensures
            final(self).input == old(self).input,
            final(self).pos <= final(self).input@.len(),
            match spec_parse_element(old(self).input@, old(self).pos as int) {
                Ok(np) => r is Ok && r->Ok_0@ == np.0 && final(self).pos == np.1,
                Err(e) => r is Err && r->Err_0 == e,
            },
        decreases old(self).input@.len() - old(self).pos, 0int,
    {
        self.consume_char();
        let tag_name = self.parse_tag_name();
        self.consume_whitespace();
        proof {
            lemma_spec_attrs_bounds(self.input@, self.pos as int, Seq::<(Seq<char>, Seq<char>)>::empty());
        }
        let attrs = match self.parse_attributes() {
            Ok(a) => a,
            Err(e) => {
                return Err(e);
            },
        };
        self.consume_whitespace();
        let void_tag = scan::str_eq(tag_name.as_str(), "meta") || scan::str_eq(
            tag_name.as_str(),
            "br",
        ) || scan::str_eq(tag_name.as_str(), "link");
        if void_tag && self.starts_with("/>") {
            proof {
                reveal_strlit("/>");
                let sub = self.input@.subrange(self.pos as int, self.pos + 2);
                assert(sub[0] == self.input@[self.pos as int]);
                assert(sub[1] == self.input@[self.pos + 1]);
            }
            self.consume_char();
            self.consume_char();
            let r = dom::elem(tag_name, attrs, Vec::new());
            proof {
                assert(r@.children =~= Seq::<NodeModel>::empty());
            }
            return Ok(r);
        }
        proof {
            reveal_strlit("/>");
            if void_tag && self.pos + 2 <= self.input@.len() && self.input@[self.pos as int] == '/'
                && self.input@[self.pos + 1] == '>' {
                assert(self.input@.subrange(self.pos as int, self.pos + 2) =~= "/>"@);
            }
        }
        if self.eof() {
            return Err(ParseError::UnexpectedCharacter);
        }
        let c = self.consume_char();
        if c != '>' {
            return Err(ParseError::UnexpectedCharacter);
        }
        proof {
            lemma_spec_parse_nodes_bounds(self.input@, self.pos as int, Seq::<NodeModel>::empty());
        }
        let children = match self.parse_nodes() {
            Ok(cs) => cs,
            Err(e) => {
                return Err(e);
            },
        };
        if self.eof() {
            return Err(ParseError::UnexpectedEnd);
        }
        let c1 = self.consume_char();
        if c1 != '<' {
            return Err(ParseError::UnexpectedEnd);
        }
        if self.eof() {
            return Err(ParseError::UnexpectedEnd);
        }
        let c2 = self.consume_char();
        if c2 != '/' {
            return Err(ParseError::UnexpectedEnd);
        }
        let closing = self.parse_tag_name();
        if !scan::str_eq(closing.as_str(), tag_name.as_str()) {
            return Err(ParseError::UnbalancedTag);
        }
        if self.eof() {
            return Err(ParseError::UnexpectedCharacter);
        }
        let c3 = self.consume_char();
        if c3 != '>' {
            return Err(ParseError::UnexpectedCharacter);
        }
        Ok(dom::elem(tag_name, attrs, children))
    }

    /// Parses nodes until the end of input or a closing tag.
    pub fn parse_nodes(&mut self) -> (r: Result<Vec<Node>, ParseError>)
        requires
            old(self).pos <= old(self).input@.len(),
        ensures
            final(self).input == old(self).input,
            final(self).pos <= final(self).input@.len(),
            match spec_parse_nodes(old(self).input@, old(self).pos as int, Seq::empty()) {
                Ok(np) => r is Ok && nodes_view(r->Ok_0@) == np.0 && final(self).pos == np.1,
                Err(e) => r is Err && r->Err_0 == e,
            },
        decreases old(self).input@.len() - old(self).pos, 2int,
    {
        let mut nodes: Vec<Node> = Vec::new();
        proof {
            assert(nodes_view(nodes@) =~= Seq::<NodeModel>::empty());
        }
        loop
            invariant
                self.input == old(self).input,
                self.pos <= self.input@.len(),
                old(self).pos <= self.pos,
                spec_parse_nodes(old(self).input@, old(self).pos as int, Seq::empty())
                    == spec_parse_nodes(self.input@, self.pos as int, nodes_view(nodes@)),
            decreases self.input@.len() - self.pos,
        {
            let ghost accv = nodes_view(nodes@);
            self.consume_whitespace();
            if self.eof() {
                return Ok(nodes);
            }
            if self.starts_with("</") {
                proof {
                    reveal_strlit("</");
                    let sub = self.input@.subrange(self.pos as int, self.pos + 2);
                    assert(sub[0] == self.input@[self.pos as int]);
                    assert(sub[1] == self.input@[self.pos + 1]);
                }
                return Ok(nodes);
            }
            proof {
                reveal_strlit("</");
                if self.pos + 2 <= self.input@.len() && self.input@[self.pos as int] == '<'
                    && self.input@[self.pos + 1] == '/' {
                    assert(self.input@.subrange(self.pos as int, self.pos + 2) =~= "</"@);
                }
                lemma_spec_parse_node_bounds(self.input@, self.pos as int);
            }
            match self.parse_node() {
                Ok(n) => {
                    let ghost nv = n@;
                    let ghost pre = nodes@;
                    nodes.push(n);
                    proof {
                        crate::dom::lemma_nodes_view(pre);
                        crate::dom::lemma_nodes_view(nodes@);
                        assert(nodes_view(nodes@) =~= accv.push(nv));
                    }
                },
                Err(e) => {
                    return Err(e);
                },
            }
        }
    }

    /// Parses the whole input into a document tree: a single root node
    /// stands alone; several roots are wrapped in an `html` element.
    pub fn parse(&mut self) -> (r: Result<Node, ParseError>)
        requires
            old(self).pos == 0,
        ensures
            match spec_parse(old(self).input@) {
                Ok(nm) => r is Ok && r->Ok_0@ == nm,
                Err(e) => r is Err && r->Err_0 == e,
            },
    {
        let mut nodes = match self.parse_nodes() {
            Ok(ns) => ns,
            Err(e) => {
                return Err(e);
            },
        };
        let ghost nsv = nodes_view(nodes@);
        proof {
            crate::dom::lemma_nodes_view(nodes@);
        }
        if nodes.len() == 1 {
            let n = nodes.remove(0);
            proof {
                assert(n@ == nsv[0]);
            }
            Ok(n)
        } else {
            let r = dom::elem("html".to_owned(), AttrMap::new(), nodes);
            proof {
                reveal_strlit("html");
                assert(r@ == element_model("html"@, Seq::empty(), nsv));
            }
            Ok(r)
        }
    }
}

} // verus!
