//! Stylesheet model: rules, selectors, declarations and property values.
//!
//! Lengths are whole pixels. Every resolved length is kept within
//! `[-PX_LIMIT, PX_LIMIT]`; arithmetic on resolved lengths saturates at
//! that range, so layout never overflows a machine integer.

use vstd::prelude::*;

verus! {

/// Saturation bound for resolved pixel lengths (2^40).
pub const PX_LIMIT: i64 = 1099511627776;

/// A value saturated into the resolved-length range.
pub open spec fn clamp_px(x: int) -> int {
    if x < -(PX_LIMIT as int) {
        -(PX_LIMIT as int)
    } else if x > PX_LIMIT as int {
        PX_LIMIT as int
    } else {
        x
    }
}

/// Whether a value lies within the resolved-length range.
pub open spec fn px_ok(x: int) -> bool {
    -(PX_LIMIT as int) <= x <= PX_LIMIT as int
}

/// Division truncating toward zero, for a positive divisor.
pub open spec fn div_trunc(x: int, d: int) -> int {
    if x >= 0 {
        x / d
    } else {
        -((-x) / d)
    }
}

/// Saturate a machine integer into the resolved-length range.
pub fn clamp_px_exec(x: i64) -> (r: i64)
    ensures
        r as int == clamp_px(x as int),
        px_ok(r as int),
{
    if x < -PX_LIMIT {
        -PX_LIMIT
    } else if x > PX_LIMIT {
        PX_LIMIT
    } else {
        x
    }
}

/// An RGBA color, one byte per channel.
#[derive(Clone, Copy, PartialEq, Eq, Structural, Debug)]
pub struct Color {
    pub r: u8,
    pub g: u8,
    pub b: u8,
    pub a: u8,
}

/// A property value: a keyword, a pixel length, a percentage, or a color.
#[derive(Debug, PartialEq)]
pub enum Value {
    Keyword(String),
    Length(i64),
    Percentage(i64),
    ColorValue(Color),
}

/// One `property: value` pair.
#[derive(Debug, PartialEq)]
pub struct Declaration {
    pub name: String,
    pub value: Value,
}

/// A simple selector: optional tag name, optional id, class names.
#[derive(Debug, PartialEq)]
pub struct Selector {
    pub tag: Option<String>,
    pub id: Option<String>,
    pub classes: Vec<String>,
}

/// Selectors and the declarations they apply.
#[derive(Debug, PartialEq)]
pub struct Rule {
    pub selectors: Vec<Selector>,
    pub declarations: Vec<Declaration>,
}

/// An ordered list of rules; the order is the source order.
#[derive(Debug, PartialEq)]
pub struct Stylesheet {
    pub rules: Vec<Rule>,
}

/// Mathematical model of a property value.
pub enum ValueV {
    Keyword(Seq<char>),
    Length(int),
    Percentage(int),
    ColorValue(Color),
}

/// Model of a value.
pub open spec fn value_view(v: Value) -> ValueV {
    match v {
        Value::Keyword(s) => ValueV::Keyword(s@),
        Value::Length(l) => ValueV::Length(l as int),
        Value::Percentage(p) => ValueV::Percentage(p as int),
        Value::ColorValue(c) => ValueV::ColorValue(c),
    }
}

/// Model of a property mapping: property names paired with values,
/// earlier entries shadowing later ones on lookup.
pub type Props = Seq<(Seq<char>, ValueV)>;

/// Model of a declaration list.
pub open spec fn decls_view(ds: Seq<Declaration>) -> Props {
    ds.map_values(|d: Declaration| (d.name@, value_view(d.value)))
}

/// First value bound to `name` in a property mapping, if any.
pub open spec fn prop_lookup(props: Props, name: Seq<char>) -> Option<ValueV>
    decreases props.len(),
{
    if props.len() == 0 {
        None
    } else if props[0].0 == name {
        Some(props[0].1)
    } else {
        prop_lookup(props.drop_first(), name)
    }
}

/// Model of a selector.
pub struct SelectorV {
    pub tag: Option<Seq<char>>,
    pub id: Option<Seq<char>>,
    pub classes: Seq<Seq<char>>,
}

/// Model of a rule.
pub struct RuleV {
    pub selectors: Seq<SelectorV>,
    pub declarations: Props,
}

impl Selector {
    /// Model of this selector.
    pub open spec fn view(self) -> SelectorV {
        SelectorV {
            tag: match self.tag {
                Some(t) => Some(t@),
                None => None,
            },
            id: match self.id {
                Some(t) => Some(t@),
                None => None,
            },
            classes: self.classes@.map_values(|c: String| c@),
        }
    }
}

impl Rule {
    /// Model of this rule.
    pub open spec fn view(self) -> RuleV {
        RuleV {
            selectors: self.selectors@.map_values(|s: Selector| s.view()),
            declarations: decls_view(self.declarations@),
        }
    }
}

impl Stylesheet {
    /// Model of this stylesheet: its rules in source order.
    pub open spec fn view(self) -> Seq<RuleV> {
        self.rules@.map_values(|r: Rule| r.view())
    }
}

/// Specificity of a selector: id presence, class count, tag presence,
/// most significant first.
pub open spec fn specificity_of(s: SelectorV) -> (int, int, int) {
    (
        if s.id is Some { 1int } else { 0int },
        s.classes.len() as int,
        if s.tag is Some { 1int } else { 0int },
    )
}

/// Lexicographic order on specificities.
pub open spec fn spec_lt(a: (int, int, int), b: (int, int, int)) -> bool {
    ||| a.0 < b.0
    ||| (a.0 == b.0 && a.1 < b.1)
    ||| (a.0 == b.0 && a.1 == b.1 && a.2 < b.2)
}

impl Selector {
    /// Specificity as machine integers.
    pub fn specificity(&self) -> (r: (usize, usize, usize))
        ensures
            (r.0 as int, r.1 as int, r.2 as int) == specificity_of(self.view()),
    {
        let id_n: usize = if self.id.is_some() { 1 } else { 0 };
        let tag_n: usize = if self.tag.is_some() { 1 } else { 0 };
        (id_n, self.classes.len(), tag_n)
    }
}

/// Whether specificity `a` is strictly below `b`, lexicographically.
pub fn specificity_lt(a: (usize, usize, usize), b: (usize, usize, usize)) -> (r: bool)
    ensures
        r == spec_lt(
            (a.0 as int, a.1 as int, a.2 as int),
            (b.0 as int, b.1 as int, b.2 as int),
        ),
{
    a.0 < b.0 || (a.0 == b.0 && (a.1 < b.1 || (a.1 == b.1 && a.2 < b.2)))
}

/// Length a value resolves to against a containing width: pixel lengths
/// saturate into range, percentages resolve against the containing
/// block's content width, anything else resolves to zero.
pub open spec fn value_px(v: Value, cb_width: int) -> int {
    match v {
        Value::Length(l) => clamp_px(l as int),
        Value::Percentage(p) => clamp_px(div_trunc(clamp_px(p as int) * cb_width, 100)),
        _ => 0,
    }
}

impl Value {
    /// Resolve this value to pixels against a containing content width.
    pub fn to_px(&self, cb_width: i64) -> (r: i64)
        requires
            px_ok(cb_width as int),
        ensures
            r as int == value_px(*self, cb_width as int),
            px_ok(r as int),
    {
        match self {
            Value::Length(l) => clamp_px_exec(*l),
            Value::Percentage(p) => {
                let pc: i64 = clamp_px_exec(*p);
                proof {
                    assert((pc as int) * (cb_width as int) <= (PX_LIMIT as int) * (PX_LIMIT as int)
                        && (pc as int) * (cb_width as int) >= -((PX_LIMIT as int) * (PX_LIMIT as int)))
                        by (nonlinear_arith)
                        requires
                            -(PX_LIMIT as int) <= pc as int <= PX_LIMIT as int,
                            -(PX_LIMIT as int) <= cb_width as int <= PX_LIMIT as int,
                    ;
                }
                let prod: i128 = (pc as i128) * (cb_width as i128);
                let neg: bool = prod < 0;
                let mag: u128 = if neg { (-prod) as u128 } else { prod as u128 };
                let q: u128 = mag / 100;
                let signed: i128 = if neg { -(q as i128) } else { q as i128 };
                proof {
                    assert(signed as int == div_trunc(pc as int * cb_width as int, 100));
                }
                if signed < -(PX_LIMIT as i128) {
                    -PX_LIMIT
                } else if signed > PX_LIMIT as i128 {
                    PX_LIMIT
                } else {
                    signed as i64
                }
            },
            _ => 0,
        }
    }

    /// A structurally equal copy.
    pub fn duplicate(&self) -> (r: Value)
        ensures
            r == *self,
    {
        match self {
            Value::Keyword(s) => Value::Keyword(s.clone()),
            Value::Length(l) => Value::Length(*l),
            Value::Percentage(p) => Value::Percentage(*p),
            Value::ColorValue(c) => Value::ColorValue(*c),
        }
    }
}

/// Look a declaration up by property name; the first entry wins.
pub fn lookup_decl<'a>(decls: &'a Vec<Declaration>, name: &String) -> (r: Option<&'a Value>)
    ensures
        match r {
            Some(v) => prop_lookup(decls_view(decls@), name@) == Some(value_view(*v)),
            None => prop_lookup(decls_view(decls@), name@) is None,
        },
{
    let mut i: usize = 0;
    proof {
        assert(decls_view(decls@.skip(0)) =~= decls_view(decls@));
    }
    while i < decls.len()
        invariant
            0 <= i <= decls@.len(),
            prop_lookup(decls_view(decls@), name@) == prop_lookup(
                decls_view(decls@.skip(i as int)),
                name@,
            ),
        decreases decls@.len() - i,
    {
        proof {
            assert(decls_view(decls@.skip(i as int))[0] == (decls@[i as int].name@, value_view(
                decls@[i as int].value,
            )));
            assert(decls_view(decls@.skip(i as int)).drop_first() =~= decls_view(
                decls@.skip(i as int + 1),
            ));
        }
        if decls[i].name == *name {
            return Some(&decls[i].value);
        }
        i = i + 1;
    }
    None
}

} // verus!
