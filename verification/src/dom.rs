//! The document tree: element, text and comment nodes with string
//! attributes.
//!
//! Attributes are held in an ordered association list with unique keys,
//! which both pins the lookup semantics and keeps the source order of
//! attributes for text rendering.

use vstd::prelude::*;
use vstd::string::StringExecFns;
use crate::scan;
use crate::assoc::{al_lookup, al_insert, al_wf, lemma_al_idx_props, lemma_al_idx_unique};

verus! {

/// Mathematical model of an attribute map: the ordered key/value pairs.
pub type AttrsModel = Seq<(Seq<char>, Seq<char>)>;

/// Attribute map of an element: string keys to string values, unique
/// keys, insertion-ordered.
#[derive(Debug)]
pub struct AttrMap {
    entries: Vec<(String, String)>,
}

impl View for AttrMap {
    type V = AttrsModel;

    closed spec fn view(&self) -> AttrsModel {
        self.entries@.map(|i: int, e: (String, String)| (e.0@, e.1@))
    }
}

impl AttrMap {
    /// An empty attribute map.
    pub fn new() -> (r: AttrMap)
        ensures
            r@ == Seq::<(Seq<char>, Seq<char>)>::empty(),
            al_wf(r@),
    {
        let r = AttrMap { entries: Vec::new() };
        proof {
            assert(r@ =~= Seq::<(Seq<char>, Seq<char>)>::empty());
        }
        r
    }

    /// Bind `name` to `value`, replacing any earlier binding of `name`.
    pub fn insert(&mut self, name: String, value: String)
        requires
            al_wf(old(self)@),
        ensures
            final(self)@ == al_insert(old(self)@, name@, value@),
            al_wf(final(self)@),
    {
        let ghost kname = name@;
        let ghost vvalue = value@;
        proof {
            lemma_al_idx_props(self@, kname);
        }
        let ghost s0 = self@;
        let mut i: usize = 0;
        let n: usize = self.entries.len();
        while i < n
            invariant
                n == self.entries.len(),
                i <= n,
                self@ == s0,
                al_wf(self@),
                name@ == kname,
                value@ == vvalue,
                s0 == old(self)@,
                forall|j: int| 0 <= j < i ==> s0[j].0 != kname,
            decreases n - i,
        {
            if scan::str_eq(self.entries[i].0.as_str(), name.as_str()) {
                proof {
                    lemma_al_idx_unique(s0, kname, i as int);
                }
                let ghost es0 = self.entries@;
                let pair = (name.clone(), value.clone());
                proof {
                    assert((pair.0@, pair.1@) == (kname, vvalue));
                }
                self.entries.remove(i);
                self.entries.insert(i, pair);
                proof {
                    assert(self.entries@ =~= es0.update(i as int, pair));
                    assert(self@ =~= al_insert(s0, kname, vvalue));
                    assert forall|p: int, q: int|
                        0 <= p < q < self@.len() implies self@[p].0 != self@[q].0 by {
                        assert(s0[p].0 != s0[q].0);
                    }
                }
                return;
            }
            i += 1;
        }
        proof {
            lemma_al_idx_unique(s0, kname, n as int);
        }
        let pair = (name.clone(), value.clone());
        proof {
            assert((pair.0@, pair.1@) == (kname, vvalue));
        }
        self.entries.push(pair);
        proof {
            assert(self@ =~= al_insert(s0, kname, vvalue));
            assert forall|p: int, q: int|
                0 <= p < q < self@.len() implies self@[p].0 != self@[q].0 by {
                if q < self@.len() - 1 {
                    assert(s0[p].0 != s0[q].0);
                } else {
                    assert(s0[p].0 != kname);
                }
            }
        }
    }

    /// Value bound to `name`, if any.
    pub fn get(&self, name: &str) -> (r: Option<String>)
        ensures
            match al_lookup(self@, name@) {
                Some(v) => r is Some && r->Some_0@ == v,
                None => r is None,
            },
    {
        proof {
            lemma_al_idx_props(self@, name@);
        }
        let mut i: usize = 0;
        let n: usize = self.entries.len();
        while i < n
            invariant
                n == self.entries.len(),
                i <= n,
                forall|j: int| 0 <= j < i ==> self@[j].0 != name@,
            decreases n - i,
        {
            if scan::str_eq(self.entries[i].0.as_str(), name) {
                proof {
                    lemma_al_idx_unique(self@, name@, i as int);
                }
                return Some(self.entries[i].1.clone());
            }
            i += 1;
        }
        proof {
            lemma_al_idx_unique(self@, name@, n as int);
        }
        None
    }

    /// Number of attributes.
    pub fn len(&self) -> (n: usize)
        ensures
            n == self@.len(),
    {
        self.entries.len()
    }

    /// The key/value pair at position `i`.
    pub fn pair_at(&self, i: usize) -> (r: (String, String))
        requires
            i < self@.len(),
        ensures
            (r.0@, r.1@) == self@[i as int],
    {
        let p = &self.entries[i];
        (p.0.clone(), p.1.clone())
    }

    /// A copy with the same bindings.
    pub fn copy_of(&self) -> (r: AttrMap)
        ensures
            r@ == self@,
    {
        let mut entries: Vec<(String, String)> = Vec::new();
        let n: usize = self.entries.len();
        let mut i: usize = 0;
        while i < n
            invariant
                n == self.entries.len(),
                i <= n,
                entries@.len() == i,
                forall|j: int| 0 <= j < i ==> (entries@[j].0@, entries@[j].1@) == self@[j],
            decreases n - i,
        {
            let p = &self.entries[i];
            entries.push((p.0.clone(), p.1.clone()));
            i += 1;
        }
        let r = AttrMap { entries };
        proof {
            assert(r@ =~= self@);
        }
        r
    }
}

/// Model of an element: tag name and attributes.
pub struct ElementModel {
    pub tag_name: Seq<char>,
    pub attributes: AttrsModel,
}

/// Model of a node's own data, without its children.
pub enum NodeTypeModel {
    Text(Seq<char>),
    Element(ElementModel),
    Comment(Seq<char>),
}

/// Model of a document node: its data and its children, in order.
pub struct NodeModel {
    pub node_type: NodeTypeModel,
    pub children: Seq<NodeModel>,
}

/// An element's own data: tag name and attributes.
#[derive(Debug)]
pub struct ElementData {
    pub tag_name: String,
    pub attributes: AttrMap,
}

impl View for ElementData {
    type V = ElementModel;

    open spec fn view(&self) -> ElementModel {
        ElementModel { tag_name: self.tag_name@, attributes: self.attributes@ }
    }
}

/// Class names of an element: its `class` attribute split at spaces;
/// no attribute means no classes.
pub open spec fn element_classes(e: ElementModel) -> Seq<Seq<char>> {
    match al_lookup(e.attributes, "class"@) {
        Some(v) => scan::split_on(v, ' '),
        None => Seq::empty(),
    }
}

impl ElementData {
    /// The element's `id` attribute, if present.
    pub fn id(&self) -> (r: Option<String>)
        ensures
            match al_lookup(self@.attributes, "id"@) {
                Some(v) => r is Some && r->Some_0@ == v,
                None => r is None,
            },
    {
        self.attributes.get("id")
    }

    /// The element's class names, in the order written.
    pub fn classes(&self) -> (r: Vec<String>)
        ensures
            r@.map_values(|c: String| c@) == element_classes(self@),
    {
        match self.attributes.get("class") {
            Some(v) => scan::split_on_exec(v.as_str(), ' '),
            None => {
                let r: Vec<String> = Vec::new();
                proof {
                    assert(r@.map_values(|c: String| c@) =~= Seq::<Seq<char>>::empty());
                }
                r
            },
        }
    }

    /// A copy with the same tag name and attributes.
    pub fn copy_of(&self) -> (r: ElementData)
        ensures
            r@ == self@,
    {
        ElementData { tag_name: self.tag_name.clone(), attributes: self.attributes.copy_of() }
    }
}

/// The kinds of document nodes.
#[derive(Debug)]
pub enum NodeType {
    Text(String),
    Element(ElementData),
    Comment(String),
}

impl View for NodeType {
    type V = NodeTypeModel;

    open spec fn view(&self) -> NodeTypeModel {
        match self {
            NodeType::Text(s) => NodeTypeModel::Text(s@),
            NodeType::Element(e) => NodeTypeModel::Element(e@),
            NodeType::Comment(s) => NodeTypeModel::Comment(s@),
        }
    }
}

impl NodeType {
    /// A copy with the same content.
    pub fn copy_of(&self) -> (r: NodeType)
        ensures
            r@ == self@,
    {
        match self {
            NodeType::Text(s) => NodeType::Text(s.clone()),
            NodeType::Element(e) => NodeType::Element(e.copy_of()),
            NodeType::Comment(s) => NodeType::Comment(s.clone()),
        }
    }
}

/// A document node: its data and an ordered list of children.
#[derive(Debug)]
pub struct Node {
    pub children: Vec<Node>,
    pub node_type: NodeType,
}

/// Recursive model of a node.
pub open spec fn node_view(n: Node) -> NodeModel
    decreases n,
{
    NodeModel { node_type: n.node_type@, children: nodes_view(n.children@) }
}

/// Models of a sequence of nodes, in order.
pub open spec fn nodes_view(s: Seq<Node>) -> Seq<NodeModel>
    decreases s,
{
    if s.len() == 0 {
        Seq::empty()
    } else {
        seq![node_view(s[0])] + nodes_view(s.skip(1))
    }
}

/// `nodes_view` maps `node_view` over the sequence, element by element.
pub proof fn lemma_nodes_view(s: Seq<Node>)
    ensures
        nodes_view(s).len() == s.len(),
        forall|i: int| 0 <= i < s.len() ==> nodes_view(s)[i] == node_view(s[i]),
    decreases s,
{
    if s.len() > 0 {
        lemma_nodes_view(s.skip(1));
        assert forall|i: int| 0 <= i < s.len() implies nodes_view(s)[i] == node_view(s[i]) by {
            if i > 0 {
                assert(s.skip(1)[i - 1] == s[i]);
            }
        }
    }
}

impl View for Node {
    type V = NodeModel;

    open spec fn view(&self) -> NodeModel {
        node_view(*self)
    }
}

impl Node {
    /// Append `child` as the last child.
    pub fn append_child(&mut self, child: Node)
        ensures
            final(self)@.node_type == old(self)@.node_type,
            final(self)@.children == old(self)@.children.push(child@),
    {
        self.children.push(child);
        proof {
            lemma_nodes_view(old(self).children@);
            lemma_nodes_view(self.children@);
            assert(self@.children =~= old(self)@.children.push(child@));
        }
    }

    /// Bind `name` to `value` in an element's attributes; no effect on
    /// text and comment nodes.
    pub fn add_attributes(&mut self, name: String, value: String)
        requires
            match old(self)@.node_type {
                NodeTypeModel::Element(e) => al_wf(e.attributes),
                _ => true,
            },
        ensures
            final(self)@.children == old(self)@.children,
            match old(self)@.node_type {
                NodeTypeModel::Element(e) => final(self)@.node_type == (NodeTypeModel::Element(
                    ElementModel { attributes: al_insert(e.attributes, name@, value@), ..e },
                )),
                _ => final(self)@.node_type == old(self)@.node_type,
            },
    {
        match &mut self.node_type {
            NodeType::Element(e) => {
                e.attributes.insert(name, value);
            },
            _ => {},
        }
        proof {
            assert(self@.children =~= old(self)@.children);
        }
    }

    /// Value of the attribute `name` on an element node; `None` on text
    /// and comment nodes.
    pub fn get_attribute(&self, name: &str) -> (r: Option<String>)
        ensures
            match self@.node_type {
                NodeTypeModel::Element(e) => match al_lookup(e.attributes, name@) {
                    Some(v) => r is Some && r->Some_0@ == v,
                    None => r is None,
                },
                _ => r is None,
            },
    {
        match &self.node_type {
            NodeType::Element(e) => e.attributes.get(name),
            _ => None,
        }
    }
}

/// A text node with no children.
pub fn text(data: String) -> (r: Node)
    ensures
        r@.node_type == NodeTypeModel::Text(data@),
        r@.children == Seq::<NodeModel>::empty(),
{
    let r = Node { children: Vec::new(), node_type: NodeType::Text(data) };
    proof {
        assert(r@.children =~= Seq::<NodeModel>::empty());
    }
    r
}

/// An element node with the given tag name, attributes and children.
pub fn elem(name: String, attrs: AttrMap, children: Vec<Node>) -> (r: Node)
    ensures
        r@.node_type == (NodeTypeModel::Element(
            ElementModel { tag_name: name@, attributes: attrs@ },
        )),
        r@.children == nodes_view(children@),
{
    Node {
        children,
        node_type: NodeType::Element(ElementData { tag_name: name, attributes: attrs }),
    }
}

/// A comment node with no children.
pub fn comment(content: String) -> (r: Node)
    ensures
        r@.node_type == NodeTypeModel::Comment(content@),
        r@.children == Seq::<NodeModel>::empty(),
{
    let r = Node { children: Vec::new(), node_type: NodeType::Comment(content) };
    proof {
        assert(r@.children =~= Seq::<NodeModel>::empty());
    }
    r
}

/// The node rendered as tag text: elements as `<tag a="v">...</tag>`,
/// comments as `<!--...-->`, text as itself. Attributes keep their
/// insertion order and are always double-quoted.
pub open spec fn spec_render(n: NodeModel) -> Seq<char>
    decreases n,
{
    match n.node_type {
        NodeTypeModel::Text(t) => t,
        NodeTypeModel::Comment(c) => "<!--"@ + c + "-->"@,
        NodeTypeModel::Element(e) => "<"@ + e.tag_name + render_attrs(e.attributes) + ">"@
            + render_children(n.children) + "</"@ + e.tag_name + ">"@,
    }
}

/// The attributes rendered in order: ` name="value"` for each.
pub open spec fn render_attrs(s: AttrsModel) -> Seq<char>
    decreases s.len(),
{
    if s.len() == 0 {
        Seq::empty()
    } else {
        render_attrs(s.drop_last()) + " "@ + s.last().0 + "=\""@ + s.last().1 + "\""@
    }
}

/// The children rendered in order.
pub open spec fn render_children(cs: Seq<NodeModel>) -> Seq<char>
    decreases cs,
{
    if cs.len() == 0 {
        Seq::empty()
    } else {
        render_children(cs.drop_last()) + spec_render(cs.last())
    }
}

impl Node {
    /// Renders the tree as tag text.
    pub fn to_text(&self) -> (r: String)
        ensures
            r@ == spec_render(self@),
        decreases *self,
    {
        match &self.node_type {
            NodeType::Text(t) => t.clone(),
            NodeType::Comment(c) => {
                let mut out = "<!--".to_owned();
                out.append(c.as_str());
                out.append("-->");
                proof {
                    assert(out@ =~= spec_render(self@));
                }
                out
            },
            NodeType::Element(e) => {
                let mut out = "<".to_owned();
                out.append(e.tag_name.as_str());
                let ghost head = "<"@ + e.tag_name@;
                proof {
                    assert(out@ =~= head);
                    assert(render_attrs(e.attributes@.take(0)) =~= Seq::<char>::empty());
                    assert(out@ =~= head + render_attrs(e.attributes@.take(0)));
                }
                let n: usize = e.attributes.len();
                let mut i: usize = 0;
                while i < n
                    invariant
                        i <= n,
                        n == e.attributes@.len(),
                        out@ == head + render_attrs(e.attributes@.take(i as int)),
                        head == "<"@ + e.tag_name@,
                    decreases n - i,
                {
                    let p = e.attributes.pair_at(i);
                    out.append(" ");
                    out.append(p.0.as_str());
                    out.append("=\"");
                    out.append(p.1.as_str());
                    out.append("\"");
                    proof {
                        let t = e.attributes@.take(i as int + 1);
                        assert(t.drop_last() =~= e.attributes@.take(i as int));
                        assert(t.last() == e.attributes@[i as int]);
                        assert(out@ =~= head + render_attrs(t));
                    }
                    i += 1;
                }
                proof {
                    assert(e.attributes@.take(n as int) =~= e.attributes@);
                }
                out.append(">");
                let ghost mid = head + render_attrs(e.attributes@) + ">"@;
                proof {
                    assert(out@ =~= mid);
                    lemma_nodes_view(self.children@);
                    assert(render_children(nodes_view(self.children@).take(0))
                        =~= Seq::<char>::empty());
                    assert(out@ =~= mid + render_children(nodes_view(self.children@).take(0)));
                }
                let m: usize = self.children.len();
                let mut j: usize = 0;
                while j < m
                    invariant
                        j <= m,
                        m == self.children@.len(),
                        nodes_view(self.children@).len() == m,
                        forall|q: int|
                            0 <= q < m ==> nodes_view(self.children@)[q] == node_view(
                                self.children@[q],
                            ),
                        out@ == mid + render_children(
                            nodes_view(self.children@).take(j as int),
                        ),
                    decreases m - j,
                {
                    proof {
                        assert(decreases_to!(*self => self.children@[j as int]));
                    }
                    let cs = self.children[j].to_text();
                    out.append(cs.as_str());
                    proof {
                        let t = nodes_view(self.children@).take(j as int + 1);
                        assert(t.drop_last() =~= nodes_view(self.children@).take(j as int));
                        assert(t.last() == nodes_view(self.children@)[j as int]);
                        assert(out@ =~= mid + render_children(t));
                    }
                    j += 1;
                }
                proof {
                    assert(nodes_view(self.children@).take(m as int)
                        =~= nodes_view(self.children@));
                }
                out.append("</");
                out.append(e.tag_name.as_str());
                out.append(">");
                proof {
                    assert(out@ =~= spec_render(self@));
                }
                out
            },
        }
    }
}

} // verus!
