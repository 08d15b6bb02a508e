//! The cascade resolver and styled tree builder.
//!
//! For one element, every rule with a matching selector contributes its
//! declarations; contributions are applied in ascending specificity
//! order, stably, so a higher-specificity rule wins, and of two rules
//! of equal specificity the one later in the stylesheet wins. The
//! styled tree mirrors the document tree and attaches the computed
//! property map to every node.

use vstd::prelude::*;
use crate::assoc::{al_insert, al_lookup, al_wf, lemma_al_idx_props, lemma_al_idx_unique,
    lemma_al_insert_wf};
use crate::css::{Declaration, DeclarationModel, Rule, RuleModel, SelectorModel, SimpleSelector,
    Selector, StyleSheet, Value, ValueModel, spec_specificity};
use crate::dom::{ElementData, ElementModel, Node, NodeModel, NodeType, NodeTypeModel,
    element_classes, node_view, nodes_view};
use crate::order::{Specificity, spec_lt, spec_le, specificity_lt, insert_stable, sort_stable,
    lemma_insert_stable_shape};
use crate::scan;

verus! {

/// Mathematical model of a property map: ordered (name, value) pairs.
pub type PropsModel = Seq<(Seq<char>, ValueModel)>;

/// The computed property map of one element: property name to value,
/// unique keys.
pub struct PropertyMap {
    entries: Vec<(String, Value)>,
}

impl View for PropertyMap {
    type V = PropsModel;

    closed spec fn view(&self) -> PropsModel {
        self.entries@.map(|i: int, e: (String, Value)| (e.0@, e.1@))
    }
}

impl PropertyMap {
    /// An empty property map.
    pub fn new() -> (r: PropertyMap)
        ensures
            r@ == Seq::<(Seq<char>, ValueModel)>::empty(),
            al_wf(r@),
    {
        let r = PropertyMap { entries: Vec::new() };
        proof {
            assert(r@ =~= Seq::<(Seq<char>, ValueModel)>::empty());
        }
        r
    }

    /// Bind `name` to `value`, replacing any earlier binding of `name`.
    pub fn insert(&mut self, name: String, value: Value)
        requires
            al_wf(old(self)@),
        ensures
            final(self)@ == al_insert(old(self)@, name@, value@),
            al_wf(final(self)@),
    {
        let ghost kname = name@;
        let ghost vvalue = value@;
        proof {
            lemma_al_idx_props(self@, kname);
        }
        let ghost s0 = self@;
        let mut i: usize = 0;
        let n: usize = self.entries.len();
        while i < n
            invariant
                n == self.entries.len(),
                i <= n,
                self@ == s0,
                al_wf(self@),
                name@ == kname,
                value@ == vvalue,
                s0 == old(self)@,
                forall|j: int| 0 <= j < i ==> s0[j].0 != kname,
            decreases n - i,
        {
            if scan::str_eq(self.entries[i].0.as_str(), name.as_str()) {
                proof {
                    lemma_al_idx_unique(s0, kname, i as int);
                }
                let ghost es0 = self.entries@;
                let pair = (name.clone(), value.clone_value());
                proof {
                    assert((pair.0@, pair.1@) == (kname, vvalue));
                }
                self.entries.remove(i);
                self.entries.insert(i, pair);
                proof {
                    assert(self.entries@ =~= es0.update(i as int, pair));
                    assert(self@ =~= al_insert(s0, kname, vvalue));
                    assert forall|p: int, q: int|
                        0 <= p < q < self@.len() implies self@[p].0 != self@[q].0 by {
                        assert(s0[p].0 != s0[q].0);
                    }
                }
                return;
            }
            i += 1;
        }
        proof {
            lemma_al_idx_unique(s0, kname, n as int);
        }
        let pair = (name.clone(), value.clone_value());
        proof {
            assert((pair.0@, pair.1@) == (kname, vvalue));
        }
        self.entries.push(pair);
        proof {
            assert(self@ =~= al_insert(s0, kname, vvalue));
            assert forall|p: int, q: int|
                0 <= p < q < self@.len() implies self@[p].0 != self@[q].0 by {
                if q < self@.len() - 1 {
                    assert(s0[p].0 != s0[q].0);
                } else {
                    assert(s0[p].0 != kname);
                }
            }
        }
    }

    /// Value bound to `name`, if any.
    pub fn get(&self, name: &str) -> (r: Option<Value>)
        ensures
            match al_lookup(self@, name@) {
                Some(v) => r is Some && r->Some_0@ == v,
                None => r is None,
            },
    {
        proof {
            lemma_al_idx_props(self@, name@);
        }
        let mut i: usize = 0;
        let n: usize = self.entries.len();
        while i < n
            invariant
                n == self.entries.len(),
                i <= n,
                forall|j: int| 0 <= j < i ==> self@[j].0 != name@,
            decreases n - i,
        {
            if scan::str_eq(self.entries[i].0.as_str(), name) {
                proof {
                    lemma_al_idx_unique(self@, name@, i as int);
                }
                return Some(self.entries[i].1.clone_value());
            }
            i += 1;
        }
        proof {
            lemma_al_idx_unique(self@, name@, n as int);
        }
        None
    }

    /// Number of properties.
    pub fn len(&self) -> (n: usize)
        ensures
            n == self@.len(),
    {
        self.entries.len()
    }

    /// A copy with the same bindings.
    pub fn copy_of(&self) -> (r: PropertyMap)
        ensures
            r@ == self@,
    {
        let mut entries: Vec<(String, Value)> = Vec::new();
        let n: usize = self.entries.len();
        let mut i: usize = 0;
        while i < n
            invariant
                n == self.entries.len(),
                i <= n,
                entries@.len() == i,
                forall|j: int| 0 <= j < i ==> (entries@[j].0@, entries@[j].1@) == self@[j],
            decreases n - i,
        {
            let p = &self.entries[i];
            entries.push((p.0.clone(), p.1.clone_value()));
            i += 1;
        }
        let r = PropertyMap { entries };
        proof {
            assert(r@ =~= self@);
        }
        r
    }
}

/// Whether the selector matches the element: the tag name constraint,
/// the id constraint and every class constraint all hold; absent
/// constraints are wildcards.
pub open spec fn spec_matches(e: ElementModel, s: SelectorModel) -> bool {
    (match s.tag_name {
        Some(t) => e.tag_name == t,
        None => true,
    }) && (match s.id {
        Some(id) => al_lookup(e.attributes, "id"@) == Some(id),
        None => true,
    }) && (forall|i: int|
        0 <= i < s.class.len() ==> element_classes(e).contains(s.class[i]))
}

/// Whether `hay` holds a string equal to `needle`.
fn contains_str(hay: &Vec<String>, needle: &str) -> (r: bool)
    ensures
        r == hay@.map_values(|c: String| c@).contains(needle@),
{
    let ghost m = hay@.map_values(|c: String| c@);
    let mut k: usize = 0;
    let n: usize = hay.len();
    while k < n
        invariant
            k <= n,
            n == hay@.len(),
            m == hay@.map_values(|c: String| c@),
            forall|j: int| 0 <= j < k ==> m[j] != needle@,
        decreases n - k,
    {
        if scan::str_eq(hay[k].as_str(), needle) {
            proof {
                assert(m[k as int] == needle@);
            }
            return true;
        }
        k += 1;
    }
    proof {
        assert forall|j: int| 0 <= j < m.len() implies m[j] != needle@ by {}
    }
    false
}

/// Whether the simple selector matches the element.
pub fn matches_simple_selector(elem: &ElementData, selector: &SimpleSelector) -> (r: bool)
    ensures
        r == spec_matches(elem@, selector@),
{
    match &selector.tag_name {
        Some(t) => {
            if !scan::str_eq(t.as_str(), elem.tag_name.as_str()) {
                return false;
            }
        },
        None => {},
    }
    match &selector.id {
        Some(id) => {
            match elem.id() {
                Some(v) => {
                    if !scan::str_eq(id.as_str(), v.as_str()) {
                        return false;
                    }
                },
                None => {
                    return false;
                },
            }
        },
        None => {},
    }
    let elem_classes = elem.classes();
    let mut ci: usize = 0;
    let n: usize = selector.class.len();
    let ghost cs = selector@.class;
    while ci < n
        invariant
            ci <= n,
            n == selector.class@.len(),
            cs == selector@.class,
            elem_classes@.map_values(|c: String| c@) == element_classes(elem@),
            forall|j: int| 0 <= j < ci ==> element_classes(elem@).contains(cs[j]),
        decreases n - ci,
    {
        proof {
            assert(cs[ci as int] == selector.class@[ci as int]@);
        }
        if !contains_str(&elem_classes, selector.class[ci].as_str()) {
            return false;
        }
        ci += 1;
    }
    true
}

/// Whether the selector matches the element.
pub fn selector_matches(elem: &ElementData, selector: &Selector) -> (r: bool)
    ensures
        r == spec_matches(elem@, selector@),
{
    match selector {
        Selector::Simple(simple) => matches_simple_selector(elem, simple),
    }
}

/// Index of the first selector that matches; the length if none does.
pub open spec fn first_match(e: ElementModel, sels: Seq<SelectorModel>) -> int
    decreases sels.len(),
{
    if sels.len() == 0 {
        0
    } else if spec_matches(e, sels[0]) {
        0
    } else {
        1 + first_match(e, sels.skip(1))
    }
}

/// `first_match` stays within bounds, points at a matching selector
/// when in bounds, and every earlier selector misses.
pub proof fn lemma_first_match_props(e: ElementModel, sels: Seq<SelectorModel>)
    ensures
        0 <= first_match(e, sels) <= sels.len(),
        first_match(e, sels) < sels.len() ==> spec_matches(e, sels[first_match(e, sels)]),
        forall|i: int| 0 <= i < first_match(e, sels) ==> !spec_matches(e, sels[i]),
    decreases sels.len(),
{
    if sels.len() == 0 || spec_matches(e, sels[0]) {
    } else {
        lemma_first_match_props(e, sels.skip(1));
        assert forall|i: int| 0 <= i < first_match(e, sels) implies !spec_matches(e, sels[i]) by {
            if i > 0 {
                assert(sels.skip(1)[i - 1] == sels[i]);
            }
        }
        if first_match(e, sels) < sels.len() {
            assert(sels.skip(1)[first_match(e, sels) - 1] == sels[first_match(e, sels)]);
        }
    }
}

/// Any index whose earlier selectors all miss, and which either matches
/// or is the length, is `first_match`.
pub proof fn lemma_first_match_unique(e: ElementModel, sels: Seq<SelectorModel>, j: int)
    requires
        0 <= j <= sels.len(),
        forall|i: int| 0 <= i < j ==> !spec_matches(e, sels[i]),
        j < sels.len() ==> spec_matches(e, sels[j]),
    ensures
        first_match(e, sels) == j,
{
    lemma_first_match_props(e, sels);
    if first_match(e, sels) < j {
        assert(spec_matches(e, sels[first_match(e, sels)]));
    }
    if first_match(e, sels) > j {
        assert(!spec_matches(e, sels[j]));
    }
}

/// Specificity of the first selector of the rule that matches, if any.
pub open spec fn spec_match_rule(e: ElementModel, r: RuleModel) -> Option<Specificity> {
    if first_match(e, r.selectors) < r.selectors.len() {
        Some(spec_specificity(r.selectors[first_match(e, r.selectors)]))
    } else {
        None
    }
}

/// Tests the rule's selectors against the element, in order.
pub fn match_rule(elem: &ElementData, rule: &Rule) -> (r: Option<Specificity>)
    ensures
        r == spec_match_rule(elem@, rule@),
{
    let ghost sels = rule@.selectors;
    let mut i: usize = 0;
    let n: usize = rule.selectors.len();
    while i < n
        invariant
            i <= n,
            n == rule.selectors@.len(),
            sels == rule@.selectors,
            forall|j: int| 0 <= j < i ==> !spec_matches(elem@, sels[j]),
        decreases n - i,
    {
        proof {
            assert(sels[i as int] == rule.selectors@[i as int]@);
        }
        if selector_matches(elem, &rule.selectors[i]) {
            proof {
                lemma_first_match_unique(elem@, sels, i as int);
            }
            return Some(rule.selectors[i].specificity());
        }
        i += 1;
    }
    proof {
        lemma_first_match_unique(elem@, sels, n as int);
    }
    None
}

/// The matched rules, in stylesheet order: for each rule with a
/// matching selector, that selector's specificity and the rule's index.
pub open spec fn spec_matching_rules(e: ElementModel, rules: Seq<RuleModel>) -> Seq<
    (Specificity, usize),
>
    decreases rules.len(),
{
    if rules.len() == 0 {
        Seq::empty()
    } else {
        let pre = spec_matching_rules(e, rules.drop_last());
        match spec_match_rule(e, rules.last()) {
            Some(sp) => pre.push((sp, (rules.len() - 1) as usize)),
            None => pre,
        }
    }
}

/// Every matched index points into the rule list.
pub proof fn lemma_matching_rules_idx(e: ElementModel, rules: Seq<RuleModel>)
    ensures
        forall|m: int|
            0 <= m < spec_matching_rules(e, rules).len() ==> spec_matching_rules(e, rules)[m].1
                < rules.len(),
    decreases rules.len(),
{
    if rules.len() > 0 {
        lemma_matching_rules_idx(e, rules.drop_last());
        let pre = spec_matching_rules(e, rules.drop_last());
        assert forall|m: int|
            0 <= m < spec_matching_rules(e, rules).len() implies spec_matching_rules(e, rules)[m].1
            < rules.len() by {
            if m < pre.len() {
                assert(spec_matching_rules(e, rules)[m].1 == pre[m].1);
            }
        }
    }
}

/// Collects the matched rules of the stylesheet for the element.
pub fn matching_rules(elem: &ElementData, style_sheet: &StyleSheet) -> (r: Vec<
    (Specificity, usize),
>)
    ensures
        r@ == spec_matching_rules(elem@, style_sheet@),
{
    let mut out: Vec<(Specificity, usize)> = Vec::new();
    let mut i: usize = 0;
    let n: usize = style_sheet.rules.len();
    proof {
        assert(style_sheet@.take(0) =~= Seq::<RuleModel>::empty());
    }
    while i < n
        invariant
            i <= n,
            n == style_sheet.rules@.len(),
            n == style_sheet@.len(),
            out@ == spec_matching_rules(elem@, style_sheet@.take(i as int)),
        decreases n - i,
    {
        proof {
            assert(style_sheet@[i as int] == style_sheet.rules@[i as int]@);
            assert(style_sheet@.take(i as int + 1).drop_last() =~= style_sheet@.take(i as int));
            assert(style_sheet@.take(i as int + 1).last() == style_sheet@[i as int]);
        }
        match match_rule(elem, &style_sheet.rules[i]) {
            Some(sp) => {
                out.push((sp, i));
            },
            None => {},
        }
        i += 1;
    }
    proof {
        assert(style_sheet@.take(n as int) =~= style_sheet@);
    }
    out
}

/// Order of the cascade sort: a matched rule comes after another when
/// its specificity is strictly greater, so sorting is ascending and
/// rules of equal specificity keep their stylesheet order.
pub open spec fn cascade_after(y: (Specificity, usize), x: (Specificity, usize)) -> bool {
    spec_lt(x.0, y.0)
}

/// `cascade_after` as a function value, for the sort specification.
pub open spec fn cascade_after_fn() -> spec_fn((Specificity, usize), (Specificity, usize)) -> bool {
    |y: (Specificity, usize), x: (Specificity, usize)| cascade_after(y, x)
}

/// Stable insertion sort of the matched rules by ascending specificity.
pub fn sort_matched(v: Vec<(Specificity, usize)>) -> (r: Vec<(Specificity, usize)>)
    ensures
        r@ == sort_stable(v@, cascade_after_fn()),
{
    let mut sorted: Vec<(Specificity, usize)> = Vec::new();
    let mut i: usize = 0;
    let n: usize = v.len();
    proof {
        assert(v@.take(0) =~= Seq::<(Specificity, usize)>::empty());
    }
    while i < n
        invariant
            i <= n,
            n == v@.len(),
            sorted@ == sort_stable(v@.take(i as int), cascade_after_fn()),
        decreases n - i,
    {
        let x = v[i];
        let mut j: usize = sorted.len();
        while j > 0 && specificity_lt(x.0, sorted[j - 1].0)
            invariant
                j <= sorted@.len(),
                forall|m: int| j <= m < sorted@.len() ==> cascade_after(sorted@[m], x),
            decreases j,
        {
            j -= 1;
        }
        let ghost t = sorted@;
        proof {
            lemma_insert_stable_shape(t, x, cascade_after_fn(), j as int);
            assert(v@.take(i as int + 1).drop_last() =~= v@.take(i as int));
            assert(v@.take(i as int + 1).last() == v@[i as int]);
        }
        sorted.insert(j, x);
        proof {
            assert(sorted@ =~= t.take(j as int) + seq![x] + t.skip(j as int));
        }
        i += 1;
    }
    proof {
        assert(v@.take(n as int) =~= v@);
    }
    sorted
}

/// The property map after applying the declarations, in order.
pub open spec fn apply_decls(m: PropsModel, decls: Seq<DeclarationModel>) -> PropsModel
    decreases decls.len(),
{
    if decls.len() == 0 {
        m
    } else {
        al_insert(apply_decls(m, decls.drop_last()), decls.last().name, decls.last().value)
    }
}

/// The property map after applying each matched rule's declarations,
/// in the order of `matched`.
pub open spec fn apply_rules(
    m: PropsModel,
    rules: Seq<RuleModel>,
    matched: Seq<(Specificity, usize)>,
) -> PropsModel
    decreases matched.len(),
{
    if matched.len() == 0 {
        m
    } else {
        let pre = apply_rules(m, rules, matched.drop_last());
        let mr = matched.last();
        if mr.1 < rules.len() {
            apply_decls(pre, rules[mr.1 as int].declarations)
        } else {
            pre
        }
    }
}

/// The specified values of the element under the stylesheet: matched
/// rules applied in ascending specificity order, stably, onto an empty
/// map.
pub open spec fn spec_specified_values(e: ElementModel, rules: Seq<RuleModel>) -> PropsModel {
    apply_rules(
        Seq::empty(),
        rules,
        sort_stable(spec_matching_rules(e, rules), cascade_after_fn()),
    )
}

/// Applying declarations keeps the map well formed.
pub proof fn lemma_apply_decls_wf(m: PropsModel, decls: Seq<DeclarationModel>)
    requires
        al_wf(m),
    ensures
        al_wf(apply_decls(m, decls)),
    decreases decls.len(),
{
    if decls.len() > 0 {
        lemma_apply_decls_wf(m, decls.drop_last());
        lemma_al_insert_wf(
            apply_decls(m, decls.drop_last()),
            decls.last().name,
            decls.last().value,
        );
    }
}

/// Computes the cascade for one element.
pub fn specified_values(elem: &ElementData, style_sheet: &StyleSheet) -> (r: PropertyMap)
    ensures
        r@ == spec_specified_values(elem@, style_sheet@),
        al_wf(r@),
{
    let matched = matching_rules(elem, style_sheet);
    let sorted = sort_matched(matched);
    let ghost sortedv = sorted@;
    let mut values = PropertyMap::new();
    let mut i: usize = 0;
    let n: usize = sorted.len();
    proof {
        assert(sortedv.take(0) =~= Seq::<(Specificity, usize)>::empty());
    }
    while i < n
        invariant
            i <= n,
            n == sorted@.len(),
            sorted@ == sortedv,
            values@ == apply_rules(Seq::empty(), style_sheet@, sortedv.take(i as int)),
            al_wf(values@),
            n == sorted.len(),
            style_sheet@ == style_sheet.rules@.map_values(|r: Rule| r@),
        decreases n - i,
    {
        let ghost prev = values@;
        proof {
            assert(sortedv.take(i as int + 1).drop_last() =~= sortedv.take(i as int));
            assert(sortedv.take(i as int + 1).last() == sortedv[i as int]);
        }
        let (_sp, idx) = sorted[i];
        if idx < style_sheet.rules.len() {
            let rule = &style_sheet.rules[idx];
            let ghost decls = rule@.declarations;
            proof {
                assert(style_sheet@[idx as int] == style_sheet.rules@[idx as int]@);
            }
            let mut d: usize = 0;
            let dn: usize = rule.declarations.len();
            proof {
                assert(decls.take(0) =~= Seq::<DeclarationModel>::empty());
            }
            while d < dn
                invariant
                    d <= dn,
                    dn == rule.declarations@.len(),
                    decls == rule@.declarations,
                    values@ == apply_decls(prev, decls.take(d as int)),
                    al_wf(values@),
                decreases dn - d,
            {
                proof {
                    assert(decls[d as int] == rule.declarations@[d as int]@);
                    assert(decls.take(d as int + 1).drop_last() =~= decls.take(d as int));
                    assert(decls.take(d as int + 1).last() == decls[d as int]);
                }
                let decl = &rule.declarations[d];
                values.insert(decl.name.clone(), decl.value.clone_value());
                d += 1;
            }
            proof {
                assert(decls.take(dn as int) =~= decls);
            }
        }
        i += 1;
    }
    proof {
        assert(sortedv.take(n as int) =~= sortedv);
    }
    values
}

/// A styled node: a copy of the source node's own data, the computed
/// property map, and styled children mirroring the source children.
pub struct StyledNode {
    pub node: NodeType,
    pub specified_values: PropertyMap,
    pub children: Vec<StyledNode>,
}

/// Model of a styled node.
pub struct StyledModel {
    pub node: NodeTypeModel,
    pub specified_values: PropsModel,
    pub children: Seq<StyledModel>,
}

/// Recursive model of a styled node.
pub open spec fn styled_view(n: StyledNode) -> StyledModel
    decreases n,
{
    StyledModel {
        node: n.node@,
        specified_values: n.specified_values@,
        children: styled_children_view(n.children@),
    }
}

/// Models of a sequence of styled nodes, in order.
pub open spec fn styled_children_view(s: Seq<StyledNode>) -> Seq<StyledModel>
    decreases s,
{
    if s.len() == 0 {
        Seq::empty()
    } else {
        seq![styled_view(s[0])] + styled_children_view(s.skip(1))
    }
}

/// `styled_children_view` maps `styled_view` element by element.
pub proof fn lemma_styled_children_view(s: Seq<StyledNode>)
    ensures
        styled_children_view(s).len() == s.len(),
        forall|i: int| 0 <= i < s.len() ==> styled_children_view(s)[i] == styled_view(s[i]),
    decreases s,
{
    if s.len() > 0 {
        lemma_styled_children_view(s.skip(1));
        assert forall|i: int|
            0 <= i < s.len() implies styled_children_view(s)[i] == styled_view(s[i]) by {
            if i > 0 {
                assert(s.skip(1)[i - 1] == s[i]);
            }
        }
    }
}

impl View for StyledNode {
    type V = StyledModel;

    open spec fn view(&self) -> StyledModel {
        styled_view(*self)
    }
}

/// The styled tree of a document node: the node's own data, its
/// specified values (the cascade for elements, empty for text and
/// comments), and the styled trees of its children, in order.
pub open spec fn spec_style_tree(root: NodeModel, rules: Seq<RuleModel>) -> StyledModel
    decreases root,
{
    StyledModel {
        node: root.node_type,
        specified_values: match root.node_type {
            NodeTypeModel::Element(e) => spec_specified_values(e, rules),
            _ => Seq::empty(),
        },
        children: spec_style_children(root.children, rules),
    }
}

/// The styled trees of a sequence of document nodes, in order.
pub open spec fn spec_style_children(s: Seq<NodeModel>, rules: Seq<RuleModel>) -> Seq<StyledModel>
    decreases s,
{
    if s.len() == 0 {
        Seq::empty()
    } else {
        seq![spec_style_tree(s[0], rules)] + spec_style_children(s.skip(1), rules)
    }
}

/// `spec_style_children` maps `spec_style_tree` element by element.
pub proof fn lemma_spec_style_children(s: Seq<NodeModel>, rules: Seq<RuleModel>)
    ensures
        spec_style_children(s, rules).len() == s.len(),
        forall|i: int|
            0 <= i < s.len() ==> spec_style_children(s, rules)[i] == spec_style_tree(s[i], rules),
    decreases s,
{
    if s.len() > 0 {
        lemma_spec_style_children(s.skip(1), rules);
        assert forall|i: int|
            0 <= i < s.len() implies spec_style_children(s, rules)[i] == spec_style_tree(
            s[i],
            rules,
        ) by {
            if i > 0 {
                assert(s.skip(1)[i - 1] == s[i]);
            }
        }
    }
}

/// Builds the styled tree for the document tree under the stylesheet.
/// The result mirrors the document tree node for node.
pub fn style_tree(root: &Node, style_sheet: &StyleSheet) -> (r: StyledNode)
    ensures
        r@ == spec_style_tree(root@, style_sheet@),
    decreases *root,
{
    let sv = match &root.node_type {
        NodeType::Element(e) => specified_values(e, style_sheet),
        _ => PropertyMap::new(),
    };
    let mut children: Vec<StyledNode> = Vec::new();
    let mut i: usize = 0;
    let n: usize = root.children.len();
    proof {
        crate::dom::lemma_nodes_view(root.children@);
        lemma_spec_style_children(root@.children, style_sheet@);
    }
    while i < n
        invariant
            i <= n,
            n == root.children@.len(),
            root@ == node_view(*root),
            root@.children.len() == n,
            forall|j: int| 0 <= j < n ==> root@.children[j] == node_view(root.children@[j]),
            forall|j: int|
                0 <= j < n ==> spec_style_children(root@.children, style_sheet@)[j]
                    == spec_style_tree(root@.children[j], style_sheet@),
            children@.len() == i,
            forall|j: int|
                0 <= j < i ==> styled_view(children@[j]) == spec_style_tree(
                    root@.children[j],
                    style_sheet@,
                ),
        decreases n - i,
    {
        proof {
            assert(decreases_to!(*root => root.children@[i as int]));
        }
        let c = style_tree(&root.children[i], style_sheet);
        children.push(c);
        i += 1;
    }
    let r = StyledNode { node: root.node_type.copy_of(), specified_values: sv, children };
    proof {
        lemma_styled_children_view(r.children@);
        assert(styled_children_view(r.children@) =~~= spec_style_children(
            root@.children,
            style_sheet@,
        ));
    }
    r
}

/// The styled tree builder is deterministic: two runs on the same
/// document tree and stylesheet yield identical styled trees,
/// property map for property map.
pub proof fn lemma_style_tree_deterministic(
    a: StyledModel,
    b: StyledModel,
    root: NodeModel,
    rules: Seq<RuleModel>,
)
    requires
        a == spec_style_tree(root, rules),
        b == spec_style_tree(root, rules),
    ensures
        a == b,
{
}

/// Number of nodes in a document subtree.
pub open spec fn node_count(n: NodeModel) -> nat
    decreases n,
{
    1 + node_list_count(n.children)
}

/// Number of nodes in a forest of document subtrees.
pub open spec fn node_list_count(s: Seq<NodeModel>) -> nat
    decreases s,
{
    if s.len() == 0 {
        0
    } else {
        node_count(s[0]) + node_list_count(s.skip(1))
    }
}

/// Number of nodes in a styled subtree.
pub open spec fn styled_count(n: StyledModel) -> nat
    decreases n,
{
    1 + styled_list_count(n.children)
}

/// Number of nodes in a forest of styled subtrees.
pub open spec fn styled_list_count(s: Seq<StyledModel>) -> nat
    decreases s,
{
    if s.len() == 0 {
        0
    } else {
        styled_count(s[0]) + styled_list_count(s.skip(1))
    }
}

/// The styled tree is a one-to-one structural mirror of its document
/// tree: same node count, node for node.
pub proof fn lemma_style_tree_mirrors(root: NodeModel, rules: Seq<RuleModel>)
    ensures
        styled_count(spec_style_tree(root, rules)) == node_count(root),
    decreases root,
{
    lemma_style_children_mirror(root.children, rules);
}

/// The styled forest of a document forest has the same node count.
pub proof fn lemma_style_children_mirror(s: Seq<NodeModel>, rules: Seq<RuleModel>)
    ensures
        styled_list_count(spec_style_children(s, rules)) == node_list_count(s),
    decreases s,
{
    if s.len() > 0 {
        lemma_style_tree_mirrors(s[0], rules);
        lemma_style_children_mirror(s.skip(1), rules);
        assert(spec_style_children(s, rules).skip(1) =~= spec_style_children(s.skip(1), rules));
    }
}

/// Whether the rule declares the property.
pub open spec fn declares(r: RuleModel, p: Seq<char>) -> bool {
    exists|i: int| 0 <= i < r.declarations.len() && r.declarations[i].name == p
}

/// Value of the last declaration of the property, if any: within one
/// rule the later declaration of a name wins.
pub open spec fn decl_last_val(decls: Seq<DeclarationModel>, p: Seq<char>) -> Option<ValueModel>
    decreases decls.len(),
{
    if decls.len() == 0 {
        None
    } else if decls.last().name == p {
        Some(decls.last().value)
    } else {
        decl_last_val(decls.drop_last(), p)
    }
}

/// `decl_last_val` finds a value exactly when some declaration has the
/// name.
pub proof fn lemma_decl_last_val_some(decls: Seq<DeclarationModel>, p: Seq<char>)
    ensures
        decl_last_val(decls, p) is Some <==> exists|i: int|
            0 <= i < decls.len() && decls[i].name == p,
    decreases decls.len(),
{
    if decls.len() > 0 {
        lemma_decl_last_val_some(decls.drop_last(), p);
        if decls.last().name == p {
            assert(decls[decls.len() - 1].name == p);
        } else {
            if exists|i: int| 0 <= i < decls.len() && decls[i].name == p {
                let i = choose|i: int| 0 <= i < decls.len() && decls[i].name == p;
                assert(i < decls.len() - 1);
                assert(decls.drop_last()[i].name == p);
            }
        }
    }
}

/// Applying a rule's declarations overwrites exactly the properties it
/// declares, each with its last declared value.
pub proof fn lemma_apply_decls_lookup(m: PropsModel, decls: Seq<DeclarationModel>, p: Seq<char>)
    ensures
        al_lookup(apply_decls(m, decls), p) == match decl_last_val(decls, p) {
            Some(v) => Some(v),
            None => al_lookup(m, p),
        },
    decreases decls.len(),
{
    if decls.len() > 0 {
        lemma_apply_decls_lookup(m, decls.drop_last(), p);
        crate::assoc::lemma_al_insert_lookup(
            apply_decls(m, decls.drop_last()),
            decls.last().name,
            decls.last().value,
            p,
        );
    }
}

/// The last matched rule in the list that declares the property.
pub open spec fn last_declaring(
    matched: Seq<(Specificity, usize)>,
    rules: Seq<RuleModel>,
    p: Seq<char>,
) -> Option<(Specificity, usize)>
    decreases matched.len(),
{
    if matched.len() == 0 {
        None
    } else if matched.last().1 < rules.len() && declares(rules[matched.last().1 as int], p) {
        Some(matched.last())
    } else {
        last_declaring(matched.drop_last(), rules, p)
    }
}

/// After applying matched rules in order, a property holds the last
/// declared value of the last rule in the list that declares it.
pub proof fn lemma_apply_rules_lookup(
    m: PropsModel,
    rules: Seq<RuleModel>,
    matched: Seq<(Specificity, usize)>,
    p: Seq<char>,
)
    ensures
        al_lookup(apply_rules(m, rules, matched), p) == match last_declaring(matched, rules, p) {
            Some(mr) => decl_last_val(rules[mr.1 as int].declarations, p),
            None => al_lookup(m, p),
        },
    decreases matched.len(),
{
    if matched.len() > 0 {
        lemma_apply_rules_lookup(m, rules, matched.drop_last(), p);
        let mr = matched.last();
        if mr.1 < rules.len() {
            lemma_apply_decls_lookup(
                apply_rules(m, rules, matched.drop_last()),
                rules[mr.1 as int].declarations,
                p,
            );
            lemma_decl_last_val_some(rules[mr.1 as int].declarations, p);
        }
    }
}

/// Keys never decrease along the list.
pub open spec fn sorted_by_key(s: Seq<(Specificity, usize)>) -> bool {
    forall|i: int, j: int| 0 <= i <= j < s.len() ==> spec_le(#[trigger] s[i].0, #[trigger] s[j].0)
}

/// Every element of a stable insertion is the inserted element or one
/// of the old ones.
pub proof fn lemma_insert_stable_elems(
    t: Seq<(Specificity, usize)>,
    x: (Specificity, usize),
    k: int,
)
    requires
        0 <= k < insert_stable(t, x, cascade_after_fn()).len(),
    ensures
        insert_stable(t, x, cascade_after_fn())[k] == x || exists|i: int|
            0 <= i < t.len() && insert_stable(t, x, cascade_after_fn())[k] == t[i],
    decreases t.len(),
{
    let ins = insert_stable(t, x, cascade_after_fn());
    if t.len() == 0 {
    } else if !cascade_after(t.last(), x) {
        if k < t.len() {
            assert(ins[k] == t[k]);
        }
    } else {
        if k == ins.len() - 1 {
            assert(ins[k] == t[t.len() - 1]);
        } else {
            lemma_insert_stable_elems(t.drop_last(), x, k);
            assert(ins[k] == insert_stable(t.drop_last(), x, cascade_after_fn())[k]);
            if ins[k] != x {
                let i = choose|i: int|
                    0 <= i < t.drop_last().len() && insert_stable(
                        t.drop_last(),
                        x,
                        cascade_after_fn(),
                    )[k] == t.drop_last()[i];
                assert(ins[k] == t[i]);
            }
        }
    }
}

/// Stable insertion keeps the list sorted.
pub proof fn lemma_insert_stable_sorted(t: Seq<(Specificity, usize)>, x: (Specificity, usize))
    requires
        sorted_by_key(t),
    ensures
        sorted_by_key(insert_stable(t, x, cascade_after_fn())),
    decreases t.len(),
{
    let ins = insert_stable(t, x, cascade_after_fn());
    if t.len() == 0 {
    } else if !cascade_after(t.last(), x) {
        assert forall|i: int, j: int| 0 <= i <= j < ins.len() implies spec_le(ins[i].0, ins[j].0) by {
            if j < t.len() {
                assert(ins[i] == t[i] && ins[j] == t[j]);
            } else if i < t.len() {
                assert(ins[i] == t[i]);
                assert(spec_le(t[i].0, t.last().0));
                assert(spec_le(t.last().0, x.0));
            }
        }
    } else {
        assert(sorted_by_key(t.drop_last())) by {
            assert forall|i: int, j: int|
                0 <= i <= j < t.drop_last().len() implies spec_le(
                t.drop_last()[i].0,
                t.drop_last()[j].0,
            ) by {
                assert(t[i] == t.drop_last()[i] && t[j] == t.drop_last()[j]);
            }
        }
        lemma_insert_stable_sorted(t.drop_last(), x);
        let pre = insert_stable(t.drop_last(), x, cascade_after_fn());
        assert forall|i: int, j: int| 0 <= i <= j < ins.len() implies spec_le(ins[i].0, ins[j].0) by {
            if j < pre.len() {
                assert(ins[i] == pre[i] && ins[j] == pre[j]);
            } else if i < pre.len() {
                assert(ins[i] == pre[i] && ins[j] == t.last());
                lemma_insert_stable_elems(t.drop_last(), x, i);
                if pre[i] == x {
                    assert(spec_lt(x.0, t.last().0));
                } else {
                    let q = choose|q: int|
                        0 <= q < t.drop_last().len() && pre[i] == t.drop_last()[q];
                    assert(pre[i] == t[q]);
                    assert(spec_le(t[q].0, t.last().0));
                }
            }
        }
    }
}

/// The stable sort sorts.
pub proof fn lemma_sort_stable_sorted(s: Seq<(Specificity, usize)>)
    ensures
        sorted_by_key(sort_stable(s, cascade_after_fn())),
    decreases s.len(),
{
    if s.len() > 0 {
        lemma_sort_stable_sorted(s.drop_last());
        lemma_insert_stable_sorted(sort_stable(s.drop_last(), cascade_after_fn()), s.last());
    }
}

/// The winning rule of the cascade for one property: among the matched
/// rules that declare it, the one of highest specificity, and of equal
/// specificity the one appearing later.
pub open spec fn best_rule(
    matched: Seq<(Specificity, usize)>,
    rules: Seq<RuleModel>,
    p: Seq<char>,
) -> Option<(Specificity, usize)>
    decreases matched.len(),
{
    if matched.len() == 0 {
        None
    } else {
        let pre = best_rule(matched.drop_last(), rules, p);
        let mr = matched.last();
        if mr.1 < rules.len() && declares(rules[mr.1 as int], p) && (pre is None || spec_le(
            (pre->0).0,
            mr.0,
        )) {
            Some(mr)
        } else {
            pre
        }
    }
}

/// In a sorted list, the last declaring rule has the highest key among
/// declaring rules.
pub proof fn lemma_last_declaring_max(
    t: Seq<(Specificity, usize)>,
    rules: Seq<RuleModel>,
    p: Seq<char>,
)
    requires
        sorted_by_key(t),
    ensures
        match last_declaring(t, rules, p) {
            Some(ld) => exists|i: int| 0 <= i < t.len() && t[i] == ld,
            None => true,
        },
    decreases t.len(),
{
    if t.len() > 0 {
        if t.last().1 < rules.len() && declares(rules[t.last().1 as int], p) {
            assert(t[t.len() - 1] == t.last());
        } else {
            assert(sorted_by_key(t.drop_last())) by {
                assert forall|i: int, j: int|
                    0 <= i <= j < t.drop_last().len() implies spec_le(
                    t.drop_last()[i].0,
                    t.drop_last()[j].0,
                ) by {
                    assert(t[i] == t.drop_last()[i] && t[j] == t.drop_last()[j]);
                }
            }
            lemma_last_declaring_max(t.drop_last(), rules, p);
            match last_declaring(t.drop_last(), rules, p) {
                Some(ld) => {
                    let i = choose|i: int| 0 <= i < t.drop_last().len() && t.drop_last()[i] == ld;
                    assert(t[i] == ld);
                },
                None => {},
            }
        }
    }
}

/// Inserting one matched rule into a sorted list moves the last
/// declaring rule as the cascade order demands: a strictly stronger
/// declarer already present still wins; otherwise the new rule wins if
/// it declares the property; otherwise nothing changes.
pub proof fn lemma_last_declaring_insert(
    t: Seq<(Specificity, usize)>,
    x: (Specificity, usize),
    rules: Seq<RuleModel>,
    p: Seq<char>,
)
    requires
        sorted_by_key(t),
    ensures
        last_declaring(insert_stable(t, x, cascade_after_fn()), rules, p) == (match last_declaring(
            t,
            rules,
            p,
        ) {
            Some(ld) => if spec_lt(x.0, ld.0) {
                Some(ld)
            } else if x.1 < rules.len() && declares(rules[x.1 as int], p) {
                Some(x)
            } else {
                Some(ld)
            },
            None => if x.1 < rules.len() && declares(rules[x.1 as int], p) {
                Some(x)
            } else {
                None
            },
        }),
    decreases t.len(),
{
    let ins = insert_stable(t, x, cascade_after_fn());
    if t.len() == 0 {
        assert(ins == seq![x]);
        assert(ins.last() == x);
        assert(ins.drop_last() =~= Seq::<(Specificity, usize)>::empty());
    } else if !cascade_after(t.last(), x) {
        assert(ins == t.push(x));
        assert(ins.last() == x);
        assert(ins.drop_last() =~= t);
        match last_declaring(t, rules, p) {
            Some(ld) => {
                lemma_last_declaring_max(t, rules, p);
                let i = choose|i: int| 0 <= i < t.len() && t[i] == ld;
                assert(spec_le(t[i].0, t.last().0));
                assert(!spec_lt(x.0, t.last().0));
                assert(!spec_lt(x.0, ld.0));
            },
            None => {},
        }
    } else {
        assert(sorted_by_key(t.drop_last())) by {
            assert forall|i: int, j: int|
                0 <= i <= j < t.drop_last().len() implies spec_le(
                t.drop_last()[i].0,
                t.drop_last()[j].0,
            ) by {
                assert(t[i] == t.drop_last()[i] && t[j] == t.drop_last()[j]);
            }
        }
        lemma_last_declaring_insert(t.drop_last(), x, rules, p);
        let pre = insert_stable(t.drop_last(), x, cascade_after_fn());
        assert(ins == pre.push(t.last()));
        assert(ins.last() == t.last());
        assert(ins.drop_last() =~= pre);
        if t.last().1 < rules.len() && declares(rules[t.last().1 as int], p) {
            assert(last_declaring(ins, rules, p) == Some(t.last()));
            assert(last_declaring(t, rules, p) == Some(t.last()));
            assert(spec_lt(x.0, t.last().0));
        } else {
            assert(last_declaring(ins, rules, p) == last_declaring(pre, rules, p));
            assert(last_declaring(t, rules, p) == last_declaring(t.drop_last(), rules, p));
        }
    }
}

/// After the stable cascade sort, the last declaring rule is exactly
/// the cascade's winning rule.
pub proof fn lemma_sorted_last_is_best(
    matched: Seq<(Specificity, usize)>,
    rules: Seq<RuleModel>,
    p: Seq<char>,
)
    ensures
        last_declaring(sort_stable(matched, cascade_after_fn()), rules, p) == best_rule(
            matched,
            rules,
            p,
        ),
    decreases matched.len(),
{
    if matched.len() > 0 {
        let s = matched.drop_last();
        let x = matched.last();
        lemma_sorted_last_is_best(s, rules, p);
        lemma_sort_stable_sorted(s);
        lemma_last_declaring_insert(sort_stable(s, cascade_after_fn()), x, rules, p);
    }
}

/// The cascade law: for every property, the computed value is the last
/// declared value of that property in the highest-specificity matching
/// rule that declares it; of two such rules with equal specificity the
/// one later in the stylesheet wins. A property no matching rule
/// declares is absent.
pub proof fn lemma_cascade_highest_wins(e: ElementModel, rules: Seq<RuleModel>, p: Seq<char>)
    ensures
        al_lookup(spec_specified_values(e, rules), p) == match best_rule(
            spec_matching_rules(e, rules),
            rules,
            p,
        ) {
            Some(mr) => decl_last_val(rules[mr.1 as int].declarations, p),
            None => None::<ValueModel>,
        },
{
    let matched = spec_matching_rules(e, rules);
    let sorted = sort_stable(matched, cascade_after_fn());
    lemma_apply_rules_lookup(Seq::empty(), rules, sorted, p);
    lemma_sorted_last_is_best(matched, rules, p);
    crate::assoc::lemma_al_idx_props(Seq::<(Seq<char>, ValueModel)>::empty(), p);
}

} // verus!
