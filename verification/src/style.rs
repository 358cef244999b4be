//! Style resolver: matches rules against document nodes, applies the
//! cascade with inheritance and initial values, and emits a style tree
//! mirroring the document tree with `display: none` subtrees omitted.

use vstd::prelude::*;
use vstd::string::StrSliceExecFns;
use crate::css::{
    Declaration, Props, Rule, RuleV, Selector, SelectorV, Stylesheet, Value, ValueV, decls_view,
    prop_lookup, specificity_of, spec_lt, value_view, lookup_decl, specificity_lt,
};
use crate::dom::{Node, NodeV, attr_lookup, attrs_view, get_attr};

verus! {

/// Whether `c` occurs in `attr` as a space-delimited word: `c` is
/// nonempty, has no spaces, and some occurrence of it in `attr` is
/// bounded by spaces or the ends of `attr`.
pub open spec fn is_class_of(attr: Seq<char>, c: Seq<char>) -> bool {
    &&& c.len() > 0
    &&& (forall|k: int| 0 <= k < c.len() ==> c[k] != ' ')
    &&& exists|i: int| #[trigger] class_at(attr, c, i)
}

/// Whether the occurrence of `c` at offset `i` of `attr` is a whole,
/// space-bounded word.
pub open spec fn class_at(attr: Seq<char>, c: Seq<char>, i: int) -> bool {
    &&& 0 <= i
    &&& i + c.len() <= attr.len()
    &&& attr.subrange(i, i + c.len()) =~= c
    &&& (i == 0 || attr[i - 1] == ' ')
    &&& (i + c.len() == attr.len() || attr[i + c.len()] == ' ')
}

/// Decide whether `c` names a class listed in the space-separated
/// attribute value `attr`.
pub fn contains_class(attr: &str, c: &str) -> (r: bool)
    ensures
        r == is_class_of(attr@, c@),
{
    let clen: usize = c.unicode_len();
    let alen: usize = attr.unicode_len();
    if clen == 0 {
        return false;
    }
    let mut k: usize = 0;
    while k < clen
        invariant
            0 <= k <= c@.len(),
            clen == c@.len(),
            forall|j: int| 0 <= j < k ==> c@[j] != ' ',
        decreases clen - k,
    {
        if c.get_char(k) == ' ' {
            return false;
        }
        k = k + 1;
    }
    if clen > alen {
        proof {
            assert(forall|i: int| !class_at(attr@, c@, i));
        }
        return false;
    }
    let mut i: usize = 0;
    while i <= alen - clen
        invariant
            0 <= i <= alen - clen + 1,
            clen == c@.len(),
            alen == attr@.len(),
            1 <= clen <= alen,
            forall|j: int| 0 <= j < clen ==> c@[j] != ' ',
            forall|p: int| 0 <= p < i ==> !class_at(attr@, c@, p),
        decreases alen - clen + 1 - i,
    {
        let left_ok: bool = i == 0 || attr.get_char(i - 1) == ' ';
        let right_ok: bool = i + clen == alen || attr.get_char(i + clen) == ' ';
        if left_ok && right_ok {
            let mut j: usize = 0;
            let mut all_eq: bool = true;
            while j < clen
                invariant
                    0 <= j <= clen,
                    clen == c@.len(),
                    alen == attr@.len(),
                    i + clen <= alen,
                    all_eq ==> forall|q: int| 0 <= q < j ==> attr@[i + q] == c@[q],
                    !all_eq ==> exists|q: int| 0 <= q < c@.len() && attr@[i + q] != c@[q],
                decreases clen - j,
            {
                if attr.get_char(i + j) != c.get_char(j) {
                    all_eq = false;
                    proof {
                        assert(attr@[i + j] != c@[j as int]);
                    }
                    j = clen;
                } else {
                    j = j + 1;
                }
            }
            if all_eq {
                proof {
                    assert(attr@.subrange(i as int, i + c@.len()) =~= c@);
                    assert(class_at(attr@, c@, i as int));
                }
                return true;
            }
            proof {
                let q = choose|q: int| 0 <= q < c@.len() && attr@[i + q] != c@[q];
                assert(attr@.subrange(i as int, i + c@.len())[q] == attr@[i + q]);
                assert(!class_at(attr@, c@, i as int));
            }
        } else {
            proof {
                assert(!class_at(attr@, c@, i as int));
            }
        }
        i = i + 1;
    }
    proof {
        assert forall|p: int| !class_at(attr@, c@, p) by {
            if 0 <= p <= alen - clen {
                assert(p < i);
            }
        }
    }
    false
}

/// The `class` attribute of an element, or the empty sequence.
pub open spec fn class_attr(attrs: Seq<(Seq<char>, Seq<char>)>) -> Seq<char> {
    match attr_lookup(attrs, "class"@) {
        Some(s) => s,
        None => Seq::empty(),
    }
}

/// Whether a selector matches an element with the given tag and
/// attributes: the tag matches or the selector names none, the id
/// matches if the selector names one, and every selector class is
/// present on the element.
pub open spec fn selector_matches(
    s: SelectorV,
    tag: Seq<char>,
    attrs: Seq<(Seq<char>, Seq<char>)>,
) -> bool {
    &&& match s.tag {
        None => true,
        Some(t) => t == tag,
    }
    &&& match s.id {
        None => true,
        Some(id) => attr_lookup(attrs, "id"@) == Some(id),
    }
    &&& forall|k: int|
        0 <= k < s.classes.len() ==> is_class_of(class_attr(attrs), #[trigger] s.classes[k])
}

/// Decide whether a selector matches an element.
pub fn matches_selector(s: &Selector, tag: &String, attrs: &Vec<(String, String)>) -> (r: bool)
    ensures
        r == selector_matches(s.view(), tag@, attrs_view(attrs@)),
{
    match &s.tag {
        Some(t) => {
            if !(*t == *tag) {
                return false;
            }
        },
        None => {},
    }
    match &s.id {
        Some(id) => {
            match get_attr(attrs, &"id".to_owned()) {
                Some(v) => {
                    if !(*v == *id) {
                        return false;
                    }
                },
                None => {
                    return false;
                },
            }
        },
        None => {},
    }
    let cattr: Option<&String> = get_attr(attrs, &"class".to_owned());
    let ghost cav: Seq<char> = class_attr(attrs_view(attrs@));
    let mut k: usize = 0;
    while k < s.classes.len()
        invariant
            0 <= k <= s.classes@.len(),
            forall|j: int|
                0 <= j < k ==> is_class_of(cav, #[trigger] s.view().classes[j]),
            match cattr {
                Some(v) => cav == v@,
                None => cav == Seq::<char>::empty(),
            },
            cav == class_attr(attrs_view(attrs@)),
        decreases s.classes@.len() - k,
    {
        let present: bool = match cattr {
            Some(v) => contains_class(v.as_str(), s.classes[k].as_str()),
            None => false,
        };
        if !present {
            proof {
                assert(s.view().classes[k as int] == s.classes@[k as int]@);
                if cattr is None {
                    assert(!is_class_of(cav, s.view().classes[k as int]));
                }
            }
            return false;
        }
        k = k + 1;
    }
    true
}

/// Specificity of the most specific matching selector of a rule, if
/// any selector matches.
pub open spec fn rule_weight(
    sels: Seq<SelectorV>,
    tag: Seq<char>,
    attrs: Seq<(Seq<char>, Seq<char>)>,
) -> Option<(int, int, int)>
    decreases sels.len(),
{
    if sels.len() == 0 {
        None
    } else {
        let rest = rule_weight(sels.drop_last(), tag, attrs);
        if selector_matches(sels.last(), tag, attrs) {
            let w = specificity_of(sels.last());
            match rest {
                None => Some(w),
                Some(w2) => if spec_lt(w, w2) {
                    Some(w2)
                } else {
                    Some(w)
                },
            }
        } else {
            rest
        }
    }
}

/// Compute the weight a rule matches an element with, if it matches.
pub fn match_rule(r: &Rule, tag: &String, attrs: &Vec<(String, String)>) -> (w: Option<
    (usize, usize, usize),
>)
    ensures
        match w {
            Some(t) => rule_weight(r.view().selectors, tag@, attrs_view(attrs@)) == Some(
                (t.0 as int, t.1 as int, t.2 as int),
            ),
            None => rule_weight(r.view().selectors, tag@, attrs_view(attrs@)) is None,
        },
{
    let mut best: Option<(usize, usize, usize)> = None;
    let mut i: usize = 0;
    proof {
        assert(r.view().selectors.take(0) =~= Seq::<SelectorV>::empty());
    }
    while i < r.selectors.len()
        invariant
            0 <= i <= r.selectors@.len(),
            r.view().selectors.len() == r.selectors@.len(),
            forall|j: int|
                0 <= j < r.selectors@.len() ==> r.view().selectors[j] == (
                #[trigger] r.selectors@[j]).view(),
            match best {
                Some(t) => rule_weight(r.view().selectors.take(i as int), tag@, attrs_view(attrs@))
                    == Some((t.0 as int, t.1 as int, t.2 as int)),
                None => rule_weight(
                    r.view().selectors.take(i as int),
                    tag@,
                    attrs_view(attrs@),
                ) is None,
            },
        decreases r.selectors@.len() - i,
    {
        let ghost pre = r.view().selectors.take(i as int);
        let ghost cur = r.view().selectors.take(i as int + 1);
        proof {
            assert(cur.drop_last() =~= pre);
            assert(cur.last() == r.view().selectors[i as int]);
        }
        if matches_selector(&r.selectors[i], tag, attrs) {
            let w = r.selectors[i].specificity();
            best = match best {
                None => Some(w),
                Some(b) => if specificity_lt(w, b) {
                    Some(b)
                } else {
                    Some(w)
                },
            };
        }
        i = i + 1;
    }
    proof {
        assert(r.view().selectors.take(r.selectors@.len() as int) =~= r.view().selectors);
    }
    best
}

/// Value bound to `name` by the last declaration of one rule naming
/// it, if any: within a rule, later declarations win.
pub open spec fn prop_lookup_last(props: Props, name: Seq<char>) -> Option<ValueV>
    decreases props.len(),
{
    if props.len() == 0 {
        None
    } else if props.last().0 == name {
        Some(props.last().1)
    } else {
        prop_lookup_last(props.drop_last(), name)
    }
}

/// The declaration that wins the cascade for one property: among the
/// matching rules that declare it, the one of the highest specificity,
/// and among rules of equal specificity the one later in source order.
/// Returns the winning weight and value.
pub open spec fn cascade_value(
    rules: Seq<RuleV>,
    tag: Seq<char>,
    attrs: Seq<(Seq<char>, Seq<char>)>,
    name: Seq<char>,
) -> Option<((int, int, int), ValueV)>
    decreases rules.len(),
{
    if rules.len() == 0 {
        None
    } else {
        let rest = cascade_value(rules.drop_last(), tag, attrs, name);
        let w = rule_weight(rules.last().selectors, tag, attrs);
        let v = prop_lookup_last(rules.last().declarations, name);
        if w is Some && v is Some {
            match rest {
                None => Some((w->0, v->0)),
                Some((w2, v2)) => if spec_lt(w->0, w2) {
                    Some((w2, v2))
                } else {
                    Some((w->0, v->0))
                },
            }
        } else {
            rest
        }
    }
}

/// Append a name to a name list unless it is already present.
pub open spec fn add_name(acc: Seq<Seq<char>>, n: Seq<char>) -> Seq<Seq<char>> {
    if acc.contains(n) {
        acc
    } else {
        acc.push(n)
    }
}

/// Names declared by a rule, appended in order to `acc`.
pub open spec fn add_decl_names(acc: Seq<Seq<char>>, ds: Props) -> Seq<Seq<char>>
    decreases ds.len(),
{
    if ds.len() == 0 {
        acc
    } else {
        add_decl_names(add_name(acc, ds[0].0), ds.drop_first())
    }
}

/// Property names declared by the matching rules, in the order first
/// seen, without repetition.
pub open spec fn decl_names(
    rules: Seq<RuleV>,
    tag: Seq<char>,
    attrs: Seq<(Seq<char>, Seq<char>)>,
) -> Seq<Seq<char>>
    decreases rules.len(),
{
    if rules.len() == 0 {
        Seq::empty()
    } else {
        let rest = decl_names(rules.drop_last(), tag, attrs);
        if rule_weight(rules.last().selectors, tag, attrs) is Some {
            add_decl_names(rest, rules.last().declarations)
        } else {
            rest
        }
    }
}

/// The cascaded property mapping: one entry per declared name, in
/// first-seen order, holding the cascade's winning value.
pub open spec fn props_from_names(
    names: Seq<Seq<char>>,
    rules: Seq<RuleV>,
    tag: Seq<char>,
    attrs: Seq<(Seq<char>, Seq<char>)>,
) -> Props
    decreases names.len(),
{
    if names.len() == 0 {
        Seq::empty()
    } else {
        let rest = props_from_names(names.drop_last(), rules, tag, attrs);
        match cascade_value(rules, tag, attrs, names.last()) {
            Some((w, v)) => rest.push((names.last(), v)),
            None => rest,
        }
    }
}

/// Extend a property mapping with the parent's values of the
/// inheritable properties it does not bind yet.
pub open spec fn add_inherited(props: Props, inherited: Seq<Seq<char>>, parent: Props) -> Props
    decreases inherited.len(),
{
    if inherited.len() == 0 {
        props
    } else {
        let rest = add_inherited(props, inherited.drop_last(), parent);
        let n = inherited.last();
        if prop_lookup(rest, n) is None && prop_lookup(parent, n) is Some {
            rest.push((n, prop_lookup(parent, n)->0))
        } else {
            rest
        }
    }
}

/// Extend a property mapping with the initial values of the
/// properties it does not bind yet.
pub open spec fn add_initial(props: Props, initial: Props) -> Props
    decreases initial.len(),
{
    if initial.len() == 0 {
        props
    } else {
        let rest = add_initial(props, initial.drop_last());
        if prop_lookup(rest, initial.last().0) is None {
            rest.push(initial.last())
        } else {
            rest
        }
    }
}

/// Default-property configuration: which properties inherit, and the
/// initial value table.
pub struct StyleConfig {
    pub inherited: Vec<String>,
    pub initial: Vec<Declaration>,
}

/// Model of a configuration.
pub struct ConfigV {
    pub inherited: Seq<Seq<char>>,
    pub initial: Props,
}

impl StyleConfig {
    /// Model of this configuration.
    pub open spec fn view(self) -> ConfigV {
        ConfigV {
            inherited: self.inherited@.map_values(|s: String| s@),
            initial: decls_view(self.initial@),
        }
    }
}

/// The computed property mapping of an element: cascade first, then
/// inherited values, then initial values.
pub open spec fn computed_elem(
    rules: Seq<RuleV>,
    tag: Seq<char>,
    attrs: Seq<(Seq<char>, Seq<char>)>,
    parent: Props,
    config: ConfigV,
) -> Props {
    add_initial(
        add_inherited(
            props_from_names(decl_names(rules, tag, attrs), rules, tag, attrs),
            config.inherited,
            parent,
        ),
        config.initial,
    )
}

/// The computed property mapping of a text node: no rule matches, so
/// only inherited and initial values apply.
pub open spec fn computed_text(parent: Props, config: ConfigV) -> Props {
    add_initial(add_inherited(Seq::empty(), config.inherited, parent), config.initial)
}

/// The computed property mapping of any node.
pub open spec fn computed_for(n: NodeV, rules: Seq<RuleV>, parent: Props, config: ConfigV) -> Props {
    match n {
        NodeV::Element { tag, attrs, .. } => computed_elem(rules, tag, attrs, parent, config),
        NodeV::Text { .. } => computed_text(parent, config),
    }
}

/// Whether a computed mapping styles its node `display: none`.
pub open spec fn display_is_none(props: Props) -> bool {
    prop_lookup(props, "display"@) == Some(ValueV::Keyword("none"@))
}

/// A document node paired with its computed property mapping and its
/// styled children.
pub struct StyledNode {
    pub specified: Vec<Declaration>,
    pub children: Vec<StyledNode>,
}

/// Model of a styled node.
pub struct StyledV {
    pub props: Props,
    pub children: Seq<StyledV>,
}

impl StyledNode {
    /// Model of the styled tree rooted at this node.
    pub open spec fn view(self) -> StyledV
        decreases self,
    {
        StyledV {
            props: decls_view(self.specified@),
            children: StyledNode::view_seq(self.children@),
        }
    }

    /// Model of a styled forest.
    pub open spec fn view_seq(s: Seq<StyledNode>) -> Seq<StyledV>
        decreases s,
    {
        if s.len() == 0 {
            Seq::empty()
        } else {
            StyledNode::view_seq(s.drop_last()).push(s.last().view())
        }
    }
}

impl StyledV {
    /// Number of nodes in the styled tree rooted here.
    pub open spec fn count(self) -> nat
        decreases self,
    {
        1 + StyledV::count_seq(self.children)
    }

    /// Total node count of a styled forest.
    pub open spec fn count_seq(s: Seq<StyledV>) -> nat
        decreases s,
    {
        if s.len() == 0 {
            0
        } else {
            StyledV::count_seq(s.drop_last()) + s.last().count()
        }
    }
}

/// The style tree of a document node: its computed properties and
/// styled children, or nothing when it is styled `display: none`.
pub open spec fn style_node_spec(
    n: NodeV,
    rules: Seq<RuleV>,
    parent: Props,
    config: ConfigV,
) -> Option<StyledV>
    decreases n,
{
    let props = computed_for(n, rules, parent, config);
    if display_is_none(props) {
        None
    } else {
        Some(
            StyledV {
                props,
                children: match n {
                    NodeV::Element { children, .. } => style_children_spec(
                        children,
                        rules,
                        props,
                        config,
                    ),
                    NodeV::Text { .. } => Seq::empty(),
                },
            },
        )
    }
}

/// Appending an entry never shadows an earlier binding.
proof fn lemma_prop_lookup_push(props: Props, e: (Seq<char>, ValueV), p: Seq<char>)
    ensures
        prop_lookup(props.push(e), p) == (if prop_lookup(props, p) is Some {
            prop_lookup(props, p)
        } else if e.0 == p {
            Some(e.1)
        } else {
            None
        }),
    decreases props.len(),
{
    if props.len() == 0 {
        assert(props.push(e)[0] == e);
        assert(props.push(e).drop_first() =~= Seq::<(Seq<char>, ValueV)>::empty());
    } else {
        assert(props.push(e)[0] == props[0]);
        assert(props.push(e).drop_first() =~= props.drop_first().push(e));
        lemma_prop_lookup_push(props.drop_first(), e, p);
    }
}

/// A rule binds a property by its last declaration only if it
/// declares it at all.
proof fn lemma_lookup_last_declares(ds: Props, p: Seq<char>)
    requires
        prop_lookup_last(ds, p) is Some,
    ensures
        exists|j: int| 0 <= j < ds.len() && (#[trigger] ds[j]).0 == p,
    decreases ds.len(),
{
    if ds.last().0 == p {
        assert(ds[ds.len() - 1].0 == p);
    } else {
        lemma_lookup_last_declares(ds.drop_last(), p);
        let j = choose|j: int| 0 <= j < ds.drop_last().len() && (#[trigger] ds.drop_last()[j]).0
            == p;
        assert(ds[j].0 == p);
    }
}

/// What `add_decl_names` collects: the names already collected and
/// the names the declarations bind.
proof fn lemma_add_decl_names_contains(acc: Seq<Seq<char>>, ds: Props, x: Seq<char>)
    ensures
        add_decl_names(acc, ds).contains(x) == (acc.contains(x) || exists|j: int|
            0 <= j < ds.len() && (#[trigger] ds[j]).0 == x),
    decreases ds.len(),
{
    if ds.len() == 0 {
    } else {
        let n = ds[0].0;
        let acc2 = add_name(acc, n);
        lemma_add_decl_names_contains(acc2, ds.drop_first(), x);
        assert(forall|j: int|
            0 <= j < ds.drop_first().len() ==> (#[trigger] ds.drop_first()[j]) == ds[j + 1]);
        assert(acc2.contains(x) == (acc.contains(x) || n == x)) by {
            if acc.contains(x) {
                let j = choose|j: int| 0 <= j < acc.len() && acc[j] == x;
                assert(acc2[j] == x);
                assert(acc2.contains(x));
            } else if n == x {
                if acc.contains(n) {
                } else {
                    assert(acc2 == acc.push(x));
                    assert(acc2[acc.len() as int] == x);
                    assert(acc2.contains(x));
                }
            } else {
                if acc2.contains(x) {
                    let j = choose|j: int| 0 <= j < acc2.len() && acc2[j] == x;
                    if !acc.contains(n) && j == acc.len() {
                        assert(x == n);
                    } else {
                        assert(acc[j] == x);
                        assert(acc.contains(x));
                    }
                }
            }
        }
        assert((exists|j: int| 0 <= j < ds.len() && (#[trigger] ds[j]).0 == x) == (n == x
            || exists|j: int|
            0 <= j < ds.drop_first().len() && (#[trigger] ds.drop_first()[j]).0 == x)) by {
            if exists|j: int| 0 <= j < ds.len() && (#[trigger] ds[j]).0 == x {
                let j = choose|j: int| 0 <= j < ds.len() && (#[trigger] ds[j]).0 == x;
                if j > 0 {
                    assert(ds.drop_first()[j - 1].0 == x);
                }
            }
            if exists|j: int|
                0 <= j < ds.drop_first().len() && (#[trigger] ds.drop_first()[j]).0 == x {
                let j = choose|j: int|
                    0 <= j < ds.drop_first().len() && (#[trigger] ds.drop_first()[j]).0 == x;
                assert(ds[j + 1].0 == x);
            }
        }
    }
}

/// A property the cascade resolves is among the collected names.
proof fn lemma_cascade_in_names(
    rules: Seq<RuleV>,
    tag: Seq<char>,
    attrs: Seq<(Seq<char>, Seq<char>)>,
    p: Seq<char>,
)
    requires
        cascade_value(rules, tag, attrs, p) is Some,
    ensures
        decl_names(rules, tag, attrs).contains(p),
    decreases rules.len(),
{
    let rest_names = decl_names(rules.drop_last(), tag, attrs);
    let w = rule_weight(rules.last().selectors, tag, attrs);
    let v = prop_lookup_last(rules.last().declarations, p);
    if w is Some && v is Some {
        lemma_lookup_last_declares(rules.last().declarations, p);
        lemma_add_decl_names_contains(rest_names, rules.last().declarations, p);
    } else {
        if w is Some {
            lemma_add_decl_names_contains(rest_names, rules.last().declarations, p);
        }
        lemma_cascade_in_names(rules.drop_last(), tag, attrs, p);
    }
}

/// The cascaded mapping binds every collected name that the cascade
/// resolves to the cascade's winning value.
proof fn lemma_props_from_names_lookup(
    names: Seq<Seq<char>>,
    rules: Seq<RuleV>,
    tag: Seq<char>,
    attrs: Seq<(Seq<char>, Seq<char>)>,
    p: Seq<char>,
)
    requires
        cascade_value(rules, tag, attrs, p) is Some,
    ensures
        prop_lookup(props_from_names(names, rules, tag, attrs), p) == (if names.contains(p) {
            Some((cascade_value(rules, tag, attrs, p)->0).1)
        } else {
            None
        }),
    decreases names.len(),
{
    if names.len() == 0 {
    } else {
        lemma_props_from_names_lookup(names.drop_last(), rules, tag, attrs, p);
        let rest = props_from_names(names.drop_last(), rules, tag, attrs);
        match cascade_value(rules, tag, attrs, names.last()) {
            Some((w, v)) => {
                lemma_prop_lookup_push(rest, (names.last(), v), p);
            },
            None => {},
        }
        if names.contains(p) && !names.drop_last().contains(p) {
            let j = choose|j: int| 0 <= j < names.len() && names[j] == p;
            if j < names.len() - 1 {
                assert(names.drop_last()[j] == p);
            }
            assert(names.last() == p);
        }
        if names.drop_last().contains(p) {
            let j = choose|j: int|
                0 <= j < names.drop_last().len() && names.drop_last()[j] == p;
            assert(names[j] == p);
        }
        if names.last() == p {
            assert(names[names.len() - 1] == p);
        }
    }
}

/// Inheritance never overrides a bound property.
proof fn lemma_add_inherited_keeps(
    props: Props,
    inherited: Seq<Seq<char>>,
    parent: Props,
    p: Seq<char>,
)
    requires
        prop_lookup(props, p) is Some,
    ensures
        prop_lookup(add_inherited(props, inherited, parent), p) == prop_lookup(props, p),
    decreases inherited.len(),
{
    if inherited.len() > 0 {
        lemma_add_inherited_keeps(props, inherited.drop_last(), parent, p);
        let rest = add_inherited(props, inherited.drop_last(), parent);
        let n = inherited.last();
        if prop_lookup(rest, n) is None && prop_lookup(parent, n) is Some {
            lemma_prop_lookup_push(rest, (n, prop_lookup(parent, n)->0), p);
        }
    }
}

/// Initial values never override a bound property.
proof fn lemma_add_initial_keeps(props: Props, initial: Props, p: Seq<char>)
    requires
        prop_lookup(props, p) is Some,
    ensures
        prop_lookup(add_initial(props, initial), p) == prop_lookup(props, p),
    decreases initial.len(),
{
    if initial.len() > 0 {
        lemma_add_initial_keeps(props, initial.drop_last(), p);
        let rest = add_initial(props, initial.drop_last());
        if prop_lookup(rest, initial.last().0) is None {
            lemma_prop_lookup_push(rest, initial.last(), p);
        }
    }
}

/// For every property that the cascade resolves on an element, the
/// element's computed mapping binds the cascade's winning value:
/// neither inheritance nor the initial table overrides a declared
/// property.
pub proof fn lemma_computed_follows_cascade(
    rules: Seq<RuleV>,
    tag: Seq<char>,
    attrs: Seq<(Seq<char>, Seq<char>)>,
    parent: Props,
    config: ConfigV,
    p: Seq<char>,
)
    requires
        cascade_value(rules, tag, attrs, p) is Some,
    ensures
        prop_lookup(computed_elem(rules, tag, attrs, parent, config), p) == Some(
            (cascade_value(rules, tag, attrs, p)->0).1,
        ),
{
    lemma_cascade_in_names(rules, tag, attrs, p);
    lemma_props_from_names_lookup(decl_names(rules, tag, attrs), rules, tag, attrs, p);
    let cascaded = props_from_names(decl_names(rules, tag, attrs), rules, tag, attrs);
    lemma_add_inherited_keeps(cascaded, config.inherited, parent, p);
    lemma_add_initial_keeps(add_inherited(cascaded, config.inherited, parent), config.initial, p);
}

/// Cascade tie-break in the computed mapping: given a stylesheet of
/// two rules of equal specificity matching the same element, both
/// declaring the property, the element's computed mapping holds the
/// later rule's value.
pub proof fn lemma_tie_break_in_computed(
    r1: RuleV,
    r2: RuleV,
    tag: Seq<char>,
    attrs: Seq<(Seq<char>, Seq<char>)>,
    parent: Props,
    config: ConfigV,
    p: Seq<char>,
    w: (int, int, int),
)
    requires
        rule_weight(r1.selectors, tag, attrs) == Some(w),
        rule_weight(r2.selectors, tag, attrs) == Some(w),
        prop_lookup_last(r1.declarations, p) is Some,
        prop_lookup_last(r2.declarations, p) is Some,
    ensures
        prop_lookup(computed_elem(seq![r1, r2], tag, attrs, parent, config), p) == Some(
            prop_lookup_last(r2.declarations, p)->0,
        ),
{
    lemma_cascade_tie_break(r1, r2, tag, attrs, p, w);
    lemma_computed_follows_cascade(seq![r1, r2], tag, attrs, parent, config, p);
}

/// Cascade tie-break: given two rules of equal specificity matching
/// the same element, both declaring the property, the value of the
/// rule later in source order wins the cascade.
pub proof fn lemma_cascade_tie_break(
    r1: RuleV,
    r2: RuleV,
    tag: Seq<char>,
    attrs: Seq<(Seq<char>, Seq<char>)>,
    p: Seq<char>,
    w: (int, int, int),
)
    requires
        rule_weight(r1.selectors, tag, attrs) == Some(w),
        rule_weight(r2.selectors, tag, attrs) == Some(w),
        prop_lookup_last(r1.declarations, p) is Some,
        prop_lookup_last(r2.declarations, p) is Some,
    ensures
        cascade_value(seq![r1, r2], tag, attrs, p) == Some(
            (w, prop_lookup_last(r2.declarations, p)->0),
        ),
{
    let s = seq![r1, r2];
    assert(s.last() == r2);
    assert(s.drop_last() =~= seq![r1]);
    assert(seq![r1].last() == r1);
    assert(seq![r1].drop_last() =~= Seq::<RuleV>::empty());
    assert(cascade_value(Seq::<RuleV>::empty(), tag, attrs, p) is None);
    assert(cascade_value(seq![r1], tag, attrs, p) == Some(
        (w, prop_lookup_last(r1.declarations, p)->0),
    ));
    assert(!spec_lt(w, w));
}

/// Model of a list of names.
pub open spec fn strs_view(s: Seq<String>) -> Seq<Seq<char>> {
    s.map_values(|x: String| x@)
}

/// Model of a list of rules.
pub open spec fn rules_view(rs: Seq<Rule>) -> Seq<RuleV> {
    rs.map_values(|r: Rule| r.view())
}

/// Find the last declaration of `name` in one rule's declaration list.
fn last_decl_value<'a>(decls: &'a Vec<Declaration>, name: &String) -> (r: Option<&'a Value>)
    ensures
        match r {
            Some(v) => prop_lookup_last(decls_view(decls@), name@) == Some(value_view(*v)),
            None => prop_lookup_last(decls_view(decls@), name@) is None,
        },
{
    let mut found: Option<&Value> = None;
    let mut i: usize = 0;
    proof {
        assert(decls_view(decls@).take(0) =~= Seq::<(Seq<char>, ValueV)>::empty());
    }
    while i < decls.len()
        invariant
            0 <= i <= decls@.len(),
            decls_view(decls@).len() == decls@.len(),
            match found {
                Some(v) => prop_lookup_last(decls_view(decls@).take(i as int), name@) == Some(
                    value_view(*v),
                ),
                None => prop_lookup_last(decls_view(decls@).take(i as int), name@) is None,
            },
        decreases decls@.len() - i,
    {
        proof {
            assert(decls_view(decls@).take(i as int + 1).drop_last() =~= decls_view(
                decls@,
            ).take(i as int));
            assert(decls_view(decls@).take(i as int + 1).last() == (decls@[i as int].name@,
            value_view(decls@[i as int].value)));
        }
        if decls[i].name == *name {
            found = Some(&decls[i].value);
        }
        i = i + 1;
    }
    proof {
        assert(decls_view(decls@).take(decls@.len() as int) =~= decls_view(decls@));
    }
    found
}

/// Run the cascade for one property over the whole stylesheet.
fn cascade_for<'a>(
    rules: &'a Vec<Rule>,
    tag: &String,
    attrs: &Vec<(String, String)>,
    name: &String,
) -> (r: Option<&'a Value>)
    ensures
        match r {
            Some(v) => exists|w: (int, int, int)|
                cascade_value(rules_view(rules@), tag@, attrs_view(attrs@), name@) == Some(
                    (w, value_view(*v)),
                ),
            None => cascade_value(rules_view(rules@), tag@, attrs_view(attrs@), name@) is None,
        },
{
    let mut best: Option<((usize, usize, usize), &Value)> = None;
    let mut i: usize = 0;
    proof {
        assert(rules_view(rules@).take(0) =~= Seq::<RuleV>::empty());
    }
    while i < rules.len()
        invariant
            0 <= i <= rules@.len(),
            rules_view(rules@).len() == rules@.len(),
            match best {
                Some((bw, bv)) => cascade_value(
                    rules_view(rules@).take(i as int),
                    tag@,
                    attrs_view(attrs@),
                    name@,
                ) == Some(((bw.0 as int, bw.1 as int, bw.2 as int), value_view(*bv))),
                None => cascade_value(
                    rules_view(rules@).take(i as int),
                    tag@,
                    attrs_view(attrs@),
                    name@,
                ) is None,
            },
        decreases rules@.len() - i,
    {
        proof {
            assert(rules_view(rules@).take(i as int + 1).drop_last() =~= rules_view(rules@).take(
                i as int,
            ));
            assert(rules_view(rules@).take(i as int + 1).last() == rules@[i as int].view());
        }
        let w = match_rule(&rules[i], tag, attrs);
        match w {
            Some(wv) => {
                match last_decl_value(&rules[i].declarations, name) {
                    Some(v) => {
                        best = match best {
                            None => Some((wv, v)),
                            Some((bw, bv)) => if specificity_lt(wv, bw) {
                                Some((bw, bv))
                            } else {
                                Some((wv, v))
                            },
                        };
                    },
                    None => {},
                }
            },
            None => {},
        }
        i = i + 1;
    }
    proof {
        assert(rules_view(rules@).take(rules@.len() as int) =~= rules_view(rules@));
    }
    match best {
        Some((_, v)) => Some(v),
        None => None,
    }
}

/// Whether a name list already holds `n`.
fn contains_name(names: &Vec<String>, n: &String) -> (r: bool)
    ensures
        r == strs_view(names@).contains(n@),
{
    let mut i: usize = 0;
    while i < names.len()
        invariant
            0 <= i <= names@.len(),
            strs_view(names@).len() == names@.len(),
            forall|j: int| 0 <= j < i ==> strs_view(names@)[j] != n@,
        decreases names@.len() - i,
    {
        if names[i] == *n {
            proof {
                assert(strs_view(names@)[i as int] == n@);
            }
            return true;
        }
        i = i + 1;
    }
    proof {
        assert forall|j: int| 0 <= j < strs_view(names@).len() implies strs_view(names@)[j] != n@
        by {}
    }
    false
}

/// Collect the property names the matching rules declare, in the
/// order first seen.
fn collect_names(rules: &Vec<Rule>, tag: &String, attrs: &Vec<(String, String)>) -> (names: Vec<
    String,
>)
    ensures
        strs_view(names@) == decl_names(rules_view(rules@), tag@, attrs_view(attrs@)),
{
    let mut names: Vec<String> = Vec::new();
    let mut i: usize = 0;
    proof {
        assert(rules_view(rules@).take(0) =~= Seq::<RuleV>::empty());
        assert(strs_view(names@) =~= Seq::<Seq<char>>::empty());
    }
    while i < rules.len()
        invariant
            0 <= i <= rules@.len(),
            rules_view(rules@).len() == rules@.len(),
            strs_view(names@) == decl_names(rules_view(rules@).take(i as int), tag@, attrs_view(
                attrs@,
            )),
        decreases rules@.len() - i,
    {
        proof {
            assert(rules_view(rules@).take(i as int + 1).drop_last() =~= rules_view(rules@).take(
                i as int,
            ));
            assert(rules_view(rules@).take(i as int + 1).last() == rules@[i as int].view());
        }
        if match_rule(&rules[i], tag, attrs).is_some() {
            let rule = &rules[i];
            let ghost ds = rules@[i as int].view().declarations;
            let ghost acc0 = strs_view(names@);
            let mut j: usize = 0;
            proof {
                assert(ds.skip(0) =~= ds);
            }
            while j < rule.declarations.len()
                invariant
                    0 <= j <= rule.declarations@.len(),
                    ds == rules@[i as int].view().declarations,
                    rule == rules@[i as int],
                    ds.len() == rule.declarations@.len(),
                    add_decl_names(acc0, ds) == add_decl_names(strs_view(names@), ds.skip(j as int)),
                decreases rule.declarations@.len() - j,
            {
                proof {
                    assert(ds.skip(j as int)[0] == (rule.declarations@[j as int].name@, value_view(
                        rule.declarations@[j as int].value,
                    )));
                    assert(ds.skip(j as int).drop_first() =~= ds.skip(j as int + 1));
                }
                let nm = &rule.declarations[j].name;
                if !contains_name(&names, nm) {
                    let ghost before = strs_view(names@);
                    names.push(nm.clone());
                    proof {
                        assert(strs_view(names@) =~= before.push(nm@));
                    }
                }
                j = j + 1;
            }
            proof {
                assert(ds.skip(rule.declarations@.len() as int) =~= Seq::<(Seq<char>, ValueV)>::empty());
            }
        }
        i = i + 1;
    }
    proof {
        assert(rules_view(rules@).take(rules@.len() as int) =~= rules_view(rules@));
    }
    names
}

/// Append the parent's values of inheritable properties not yet bound.
fn push_inherited(out: &mut Vec<Declaration>, config: &StyleConfig, parent: &Vec<Declaration>)
    ensures
        decls_view(final(out)@) == add_inherited(
            decls_view(old(out)@),
            config.view().inherited,
            decls_view(parent@),
        ),
{
    let ghost base = decls_view(old(out)@);
    let mut k: usize = 0;
    proof {
        assert(config.view().inherited.take(0) =~= Seq::<Seq<char>>::empty());
    }
    while k < config.inherited.len()
        invariant
            0 <= k <= config.inherited@.len(),
            config.view().inherited.len() == config.inherited@.len(),
            decls_view(out@) == add_inherited(base, config.view().inherited.take(k as int),
            decls_view(parent@)),
        decreases config.inherited@.len() - k,
    {
        proof {
            assert(config.view().inherited.take(k as int + 1).drop_last() =~= config.view(
            ).inherited.take(k as int));
            assert(config.view().inherited.take(k as int + 1).last() == config.inherited@[
                k as int]@);
        }
        let nm = &config.inherited[k];
        if lookup_decl(out, nm).is_none() {
            match lookup_decl(parent, nm) {
                Some(v) => {
                    let ghost before = decls_view(out@);
                    let dup = v.duplicate();
                    out.push(Declaration { name: nm.clone(), value: dup });
                    proof {
                        assert(decls_view(out@) =~= before.push((nm@, value_view(dup))));
                    }
                },
                None => {},
            }
        }
        k = k + 1;
    }
    proof {
        assert(config.view().inherited.take(config.inherited@.len() as int) =~= config.view(
        ).inherited);
    }
}

/// Append the initial values of properties not yet bound.
fn push_initial(out: &mut Vec<Declaration>, config: &StyleConfig)
    ensures
        decls_view(final(out)@) == add_initial(decls_view(old(out)@), config.view().initial),
{
    let ghost base = decls_view(old(out)@);
    let mut k: usize = 0;
    proof {
        assert(config.view().initial.take(0) =~= Seq::<(Seq<char>, ValueV)>::empty());
    }
    while k < config.initial.len()
        invariant
            0 <= k <= config.initial@.len(),
            config.view().initial.len() == config.initial@.len(),
            decls_view(out@) == add_initial(base, config.view().initial.take(k as int)),
        decreases config.initial@.len() - k,
    {
        proof {
            assert(config.view().initial.take(k as int + 1).drop_last() =~= config.view(
            ).initial.take(k as int));
            assert(config.view().initial.take(k as int + 1).last() == (config.initial@[
                k as int].name@, value_view(config.initial@[k as int].value)));
        }
        let d = &config.initial[k];
        if lookup_decl(out, &d.name).is_none() {
            let ghost before = decls_view(out@);
            let dup = d.value.duplicate();
            out.push(Declaration { name: d.name.clone(), value: dup });
            proof {
                assert(decls_view(out@) =~= before.push((d.name@, value_view(dup))));
            }
        }
        k = k + 1;
    }
    proof {
        assert(config.view().initial.take(config.initial@.len() as int) =~= config.view().initial);
    }
}

/// Compute an element's property mapping: cascade, inheritance,
/// initial values.
fn computed_props_elem(
    rules: &Vec<Rule>,
    tag: &String,
    attrs: &Vec<(String, String)>,
    parent: &Vec<Declaration>,
    config: &StyleConfig,
) -> (out: Vec<Declaration>)
    ensures
        decls_view(out@) == computed_elem(
            rules_view(rules@),
            tag@,
            attrs_view(attrs@),
            decls_view(parent@),
            config.view(),
        ),
{
    let names = collect_names(rules, tag, attrs);
    let mut out: Vec<Declaration> = Vec::new();
    let mut ni: usize = 0;
    proof {
        assert(strs_view(names@).take(0) =~= Seq::<Seq<char>>::empty());
        assert(decls_view(out@) =~= Seq::<(Seq<char>, ValueV)>::empty());
    }
    while ni < names.len()
        invariant
            0 <= ni <= names@.len(),
            strs_view(names@).len() == names@.len(),
            strs_view(names@) == decl_names(rules_view(rules@), tag@, attrs_view(attrs@)),
            decls_view(out@) == props_from_names(strs_view(names@).take(ni as int), rules_view(
                rules@,
            ), tag@, attrs_view(attrs@)),
        decreases names@.len() - ni,
    {
        proof {
            assert(strs_view(names@).take(ni as int + 1).drop_last() =~= strs_view(names@).take(
                ni as int,
            ));
            assert(strs_view(names@).take(ni as int + 1).last() == names@[ni as int]@);
        }
        match cascade_for(rules, tag, attrs, &names[ni]) {
            Some(v) => {
                let ghost before = decls_view(out@);
                let dup = v.duplicate();
                out.push(Declaration { name: names[ni].clone(), value: dup });
                proof {
                    assert(decls_view(out@) =~= before.push((names@[ni as int]@, value_view(dup))));
                }
            },
            None => {},
        }
        ni = ni + 1;
    }
    proof {
        assert(strs_view(names@).take(names@.len() as int) =~= strs_view(names@));
    }
    push_inherited(&mut out, config, parent);
    push_initial(&mut out, config);
    out
}

/// Compute a text node's property mapping: inheritance and initial
/// values only.
fn computed_props_text(parent: &Vec<Declaration>, config: &StyleConfig) -> (out: Vec<Declaration>)
    ensures
        decls_view(out@) == computed_text(decls_view(parent@), config.view()),
{
    let mut out: Vec<Declaration> = Vec::new();
    proof {
        assert(decls_view(out@) =~= Seq::<(Seq<char>, ValueV)>::empty());
    }
    push_inherited(&mut out, config, parent);
    push_initial(&mut out, config);
    out
}

/// Whether a computed mapping styles its node `display: none`.
fn display_none_of(computed: &Vec<Declaration>) -> (r: bool)
    ensures
        r == display_is_none(decls_view(computed@)),
{
    match lookup_decl(computed, &"display".to_owned()) {
        Some(Value::Keyword(s)) => *s == "none".to_owned(),
        _ => false,
    }
}

/// Style one node against the stylesheet, under its parent's computed
/// mapping.
fn style_node(
    n: &Node,
    rules: &Vec<Rule>,
    parent: &Vec<Declaration>,
    config: &StyleConfig,
) -> (r: Option<StyledNode>)
    ensures
        match r {
            Some(st) => style_node_spec(
                (*n).view(),
                rules_view(rules@),
                decls_view(parent@),
                config.view(),
            ) == Some(st.view()),
            None => style_node_spec(
                (*n).view(),
                rules_view(rules@),
                decls_view(parent@),
                config.view(),
            ) is None,
        },
    decreases *n,
{
    let computed: Vec<Declaration> = match n {
        Node::Element { tag, attrs, .. } => computed_props_elem(rules, tag, attrs, parent, config),
        Node::Text { .. } => computed_props_text(parent, config),
    };
    proof {
        assert(decls_view(computed@) == computed_for(
            (*n).view(),
            rules_view(rules@),
            decls_view(parent@),
            config.view(),
        ));
    }
    if display_none_of(&computed) {
        return None;
    }
    let mut kids: Vec<StyledNode> = Vec::new();
    match n {
        Node::Element { children, .. } => {
            let ghost cs = Node::view_seq(children@);
            proof {
                Node::lemma_view_seq(children@);
                assert(StyledNode::view_seq(kids@) =~= Seq::<StyledV>::empty());
                assert(cs.take(0) =~= Seq::<NodeV>::empty());
            }
            let mut i: usize = 0;
            while i < children.len()
                invariant
                    0 <= i <= children@.len(),
                    *n is Element,
                    n->Element_children == *children,
                    cs == Node::view_seq(children@),
                    cs.len() == children@.len(),
                    forall|j: int| 0 <= j < children@.len() ==> cs[j] == (
                    #[trigger] children@[j]).view(),
                    StyledNode::view_seq(kids@) == style_children_spec(
                        cs.take(i as int),
                        rules_view(rules@),
                        decls_view(computed@),
                        config.view(),
                    ),
                decreases children@.len() - i,
            {
                proof {
                    assert(cs.take(i as int + 1).drop_last() =~= cs.take(i as int));
                    assert(cs.take(i as int + 1).last() == cs[i as int]);
                    assert(*children == n->Element_children);
                    assert(decreases_to!(*n => n->Element_children));
                    assert(decreases_to!(n->Element_children => children@[i as int]));
                    assert(decreases_to!(*n => children@[i as int]));
                }
                match style_node(&children[i], rules, &computed, config) {
                    Some(st) => {
                        let ghost k0 = kids@;
                        let ghost stv = st.view();
                        kids.push(st);
                        proof {
                            assert(kids@.drop_last() =~= k0);
                            assert(kids@.last() == k0.push(kids@.last()).last());
                            assert(StyledNode::view_seq(kids@) == StyledNode::view_seq(k0).push(
                                stv,
                            ));
                        }
                    },
                    None => {},
                }
                i = i + 1;
            }
            proof {
                assert(cs.take(children@.len() as int) =~= cs);
            }
        },
        Node::Text { .. } => {},
    }
    Some(StyledNode { specified: computed, children: kids })
}

/// Resolve the style tree of a document: one styled node per document
/// node not styled `display: none`, each holding its computed property
/// mapping.
pub fn style_tree(root: &Node, stylesheet: &Stylesheet, config: &StyleConfig) -> (r: Option<
    StyledNode,
>)
    ensures
        match r {
            Some(st) => style_node_spec(
                (*root).view(),
                stylesheet.view(),
                Seq::empty(),
                config.view(),
            ) == Some(st.view()),
            None => style_node_spec(
                (*root).view(),
                stylesheet.view(),
                Seq::empty(),
                config.view(),
            ) is None,
        },
{
    let empty: Vec<Declaration> = Vec::new();
    proof {
        assert(decls_view(empty@) =~= Seq::<(Seq<char>, ValueV)>::empty());
    }
    style_node(root, &stylesheet.rules, &empty, config)
}

/// The styled children of a node: one styled node per child that is
/// not styled `display: none`, in order.
pub open spec fn style_children_spec(
    cs: Seq<NodeV>,
    rules: Seq<RuleV>,
    parent: Props,
    config: ConfigV,
) -> Seq<StyledV>
    decreases cs,
{
    if cs.len() == 0 {
        Seq::empty()
    } else {
        let rest = style_children_spec(cs.drop_last(), rules, parent, config);
        match style_node_spec(cs.last(), rules, parent, config) {
            Some(s) => rest.push(s),
            None => rest,
        }
    }
}

} // verus!
