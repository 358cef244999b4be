//! Layout engine: turns a style tree into a box tree with resolved
//! geometry, by the normal-flow block formatting algorithm with
//! anonymous-box synthesis.

use vstd::prelude::*;
use crate::css::{
    Declaration, Props, Value, ValueV, clamp_px, decls_view, div_trunc, lookup_decl, prop_lookup,
    px_ok, value_view,
};
use crate::style::{StyledNode, StyledV};

verus! {

/// A rectangle: origin and size, in pixels.
#[derive(Clone, Copy, PartialEq, Eq, Structural, Debug)]
pub struct Rect {
    pub x: i64,
    pub y: i64,
    pub width: i64,
    pub height: i64,
}

/// Edge sizes around a content area, one per side.
#[derive(Clone, Copy, PartialEq, Eq, Structural, Debug)]
pub struct EdgeSizes {
    pub left: i64,
    pub right: i64,
    pub top: i64,
    pub bottom: i64,
}

/// Content rectangle with its padding, border and margin edges.
#[derive(Clone, Copy, PartialEq, Eq, Structural, Debug)]
pub struct Dimensions {
    pub content: Rect,
    pub padding: EdgeSizes,
    pub border: EdgeSizes,
    pub margin: EdgeSizes,
}

/// Kind of a layout box.
#[derive(Clone, Copy, PartialEq, Eq, Structural, Debug)]
pub enum BoxType {
    Block,
    Inline,
    Anonymous,
}

/// Model of a rectangle.
pub struct RectV {
    pub x: int,
    pub y: int,
    pub width: int,
    pub height: int,
}

/// Model of edge sizes.
pub struct EdgesV {
    pub left: int,
    pub right: int,
    pub top: int,
    pub bottom: int,
}

/// Model of a box's dimensions.
pub struct DimsV {
    pub content: RectV,
    pub padding: EdgesV,
    pub border: EdgesV,
    pub margin: EdgesV,
}

/// Model of a rectangle value.
pub open spec fn rect_view(r: Rect) -> RectV {
    RectV { x: r.x as int, y: r.y as int, width: r.width as int, height: r.height as int }
}

/// Model of an edge-size value.
pub open spec fn edges_view(e: EdgeSizes) -> EdgesV {
    EdgesV {
        left: e.left as int,
        right: e.right as int,
        top: e.top as int,
        bottom: e.bottom as int,
    }
}

/// Model of a dimensions value.
pub open spec fn dims_view(d: Dimensions) -> DimsV {
    DimsV {
        content: rect_view(d.content),
        padding: edges_view(d.padding),
        border: edges_view(d.border),
        margin: edges_view(d.margin),
    }
}

/// All-zero dimensions.
pub open spec fn zero_dims() -> DimsV {
    DimsV {
        content: RectV { x: 0, y: 0, width: 0, height: 0 },
        padding: EdgesV { left: 0, right: 0, top: 0, bottom: 0 },
        border: EdgesV { left: 0, right: 0, top: 0, bottom: 0 },
        margin: EdgesV { left: 0, right: 0, top: 0, bottom: 0 },
    }
}

/// Fresh dimensions, everything zero.
pub fn default_dimensions() -> (d: Dimensions)
    ensures
        dims_view(d) == zero_dims(),
{
    Dimensions {
        content: Rect { x: 0, y: 0, width: 0, height: 0 },
        padding: EdgeSizes { left: 0, right: 0, top: 0, bottom: 0 },
        border: EdgeSizes { left: 0, right: 0, top: 0, bottom: 0 },
        margin: EdgeSizes { left: 0, right: 0, top: 0, bottom: 0 },
    }
}

/// A box in the layout tree: its kind, the computed style it was
/// generated from, its resolved geometry, and its child boxes. The box
/// holds everything layout and painting need; it does not refer back
/// into the style tree.
#[derive(Debug, PartialEq)]
pub struct LayoutBox {
    pub box_type: BoxType,
    pub style: Vec<Declaration>,
    pub dimensions: Dimensions,
    pub children: Vec<LayoutBox>,
}

/// Model of a layout box.
pub struct LayoutBoxV {
    pub box_type: BoxType,
    pub style: Props,
    pub dims: DimsV,
    pub children: Seq<LayoutBoxV>,
}

impl LayoutBox {
    /// Model of the box tree rooted here.
    pub open spec fn view(self) -> LayoutBoxV
        decreases self,
    {
        LayoutBoxV {
            box_type: self.box_type,
            style: decls_view(self.style@),
            dims: dims_view(self.dimensions),
            children: LayoutBox::view_seq(self.children@),
        }
    }

    /// Model of a forest of boxes.
    pub open spec fn view_seq(s: Seq<LayoutBox>) -> Seq<LayoutBoxV>
        decreases s,
    {
        if s.len() == 0 {
            Seq::empty()
        } else {
            LayoutBox::view_seq(s.drop_last()).push(s.last().view())
        }
    }
}

/// Displayed kind of a styled node, from its computed `display` value:
/// `block` and `inline` boxes are generated, anything else is omitted
/// together with its descendants.
pub enum Display {
    Block,
    Inline,
    Omitted,
}

/// The display kind a computed property mapping calls for.
pub open spec fn display_of(props: Props) -> Display {
    match prop_lookup(props, "display"@) {
        Some(ValueV::Keyword(k)) => if k == "block"@ {
            Display::Block
        } else if k == "inline"@ {
            Display::Inline
        } else {
            Display::Omitted
        },
        _ => Display::Omitted,
    }
}

/// Read the display kind of a computed style.
pub fn display_of_style(style: &Vec<Declaration>) -> (r: Display)
    ensures
        r == display_of(decls_view(style@)),
{
    match lookup_decl(style, &"display".to_owned()) {
        Some(Value::Keyword(s)) => {
            if *s == "block".to_owned() {
                Display::Block
            } else if *s == "inline".to_owned() {
                Display::Inline
            } else {
                Display::Omitted
            }
        },
        _ => Display::Omitted,
    }
}

/// Value of property `a`, falling back to shorthand `b`.
pub open spec fn lookup2_spec(props: Props, a: Seq<char>, b: Seq<char>) -> Option<ValueV> {
    match prop_lookup(props, a) {
        Some(v) => Some(v),
        None => prop_lookup(props, b),
    }
}

/// Look a property up with a shorthand fallback.
pub fn lookup2<'a>(style: &'a Vec<Declaration>, a: &str, b: &str) -> (r: Option<&'a Value>)
    ensures
        match r {
            Some(v) => lookup2_spec(decls_view(style@), a@, b@) == Some(value_view(*v)),
            None => lookup2_spec(decls_view(style@), a@, b@) is None,
        },
{
    match lookup_decl(style, &a.to_owned()) {
        Some(v) => Some(v),
        None => lookup_decl(style, &b.to_owned()),
    }
}

/// Pixel length an optional value resolves to; absent values resolve
/// to zero.
pub open spec fn opt_px(ov: Option<ValueV>, cbw: int) -> int {
    match ov {
        Some(v) => value_px_v(v, cbw),
        None => 0,
    }
}

/// Length a modeled value resolves to against a containing width.
pub open spec fn value_px_v(v: ValueV, cbw: int) -> int {
    match v {
        ValueV::Length(l) => clamp_px(l),
        ValueV::Percentage(p) => clamp_px(div_trunc(clamp_px(p) * cbw, 100)),
        _ => 0,
    }
}

/// Whether an optional value is the keyword `auto`.
pub open spec fn opt_is_auto(ov: Option<ValueV>) -> bool {
    ov == Some(ValueV::Keyword("auto"@))
}

/// Resolve an optional value to pixels.
pub fn px_of(v: Option<&Value>, cbw: i64) -> (r: i64)
    requires
        px_ok(cbw as int),
    ensures
        (match v {
            Some(vv) => r as int == value_px_v(value_view(*vv), cbw as int),
            None => r == 0,
        }),
        px_ok(r as int),
{
    match v {
        Some(vv) => vv.to_px(cbw),
        None => 0,
    }
}

/// Whether an optional value is the keyword `auto`.
pub fn is_auto(v: Option<&Value>) -> (r: bool)
    ensures
        r == (match v {
            Some(vv) => value_view(*vv) == ValueV::Keyword("auto"@),
            None => false,
        }),
{
    match v {
        Some(Value::Keyword(s)) => *s == "auto".to_owned(),
        _ => false,
    }
}

/// Zero floor.
pub open spec fn max0(x: int) -> int {
    if x < 0 {
        0
    } else {
        x
    }
}

/// The solved horizontal geometry of a block box:
/// `(width, margin_left, margin_right, border_left, border_right,
/// padding_left, padding_right)`, per the normal-flow constraint: the
/// seven of them must fill the containing width; an `auto` width
/// absorbs the remaining space, else a sole `auto` margin absorbs it,
/// two `auto` margins split it, and an over-constrained box pushes the
/// excess into its right margin.
pub open spec fn solve_width(style: Props, cbw: int) -> (int, int, int, int, int, int, int) {
    let wv = prop_lookup(style, "width"@);
    let width_auto = wv is None || opt_is_auto(wv);
    let w0 = max0(opt_px(wv, cbw));
    let ml_v = lookup2_spec(style, "margin-left"@, "margin"@);
    let mr_v = lookup2_spec(style, "margin-right"@, "margin"@);
    let ml_auto = opt_is_auto(ml_v);
    let mr_auto = opt_is_auto(mr_v);
    let ml0 = opt_px(ml_v, cbw);
    let mr0 = opt_px(mr_v, cbw);
    let bl = opt_px(lookup2_spec(style, "border-left-width"@, "border-width"@), cbw);
    let br = opt_px(lookup2_spec(style, "border-right-width"@, "border-width"@), cbw);
    let pl = opt_px(lookup2_spec(style, "padding-left"@, "padding"@), cbw);
    let pr = opt_px(lookup2_spec(style, "padding-right"@, "padding"@), cbw);
    let u = cbw - (w0 + ml0 + mr0 + bl + br + pl + pr);
    if !width_auto {
        if !ml_auto && !mr_auto {
            (w0, ml0, clamp_px(mr0 + u), bl, br, pl, pr)
        } else if !ml_auto && mr_auto {
            (w0, ml0, clamp_px(u), bl, br, pl, pr)
        } else if ml_auto && !mr_auto {
            (w0, clamp_px(u), mr0, bl, br, pl, pr)
        } else {
            (w0, clamp_px(div_trunc(u, 2)), clamp_px(u - div_trunc(u, 2)), bl, br, pl, pr)
        }
    } else {
        if u >= 0 {
            (clamp_px(u), ml0, mr0, bl, br, pl, pr)
        } else {
            (0, ml0, clamp_px(mr0 + u), bl, br, pl, pr)
        }
    }
}

/// Solve a block box's horizontal geometry.
pub fn solve_width_px(style: &Vec<Declaration>, cbw: i64) -> (r: (
    i64,
    i64,
    i64,
    i64,
    i64,
    i64,
    i64,
))
    requires
        px_ok(cbw as int),
    ensures
        (r.0 as int, r.1 as int, r.2 as int, r.3 as int, r.4 as int, r.5 as int, r.6 as int)
            == solve_width(decls_view(style@), cbw as int),
        px_ok(r.0 as int) && px_ok(r.1 as int) && px_ok(r.2 as int) && px_ok(r.3 as int) && px_ok(
            r.4 as int,
        ) && px_ok(r.5 as int) && px_ok(r.6 as int),
{
    let wv = lookup_decl(style, &"width".to_owned());
    let width_auto = wv.is_none() || is_auto(wv);
    let w0_raw = px_of(wv, cbw);
    let w0: i64 = if w0_raw < 0 {
        0
    } else {
        w0_raw
    };
    let ml_v = lookup2(style, "margin-left", "margin");
    let ml_auto = is_auto(ml_v);
    let ml0 = px_of(ml_v, cbw);
    let mr_v = lookup2(style, "margin-right", "margin");
    let mr_auto = is_auto(mr_v);
    let mr0 = px_of(mr_v, cbw);
    let bl = px_of(lookup2(style, "border-left-width", "border-width"), cbw);
    let br = px_of(lookup2(style, "border-right-width", "border-width"), cbw);
    let pl = px_of(lookup2(style, "padding-left", "padding"), cbw);
    let pr = px_of(lookup2(style, "padding-right", "padding"), cbw);
    let u: i64 = cbw - (w0 + ml0 + mr0 + bl + br + pl + pr);
    if !width_auto {
        if !ml_auto && !mr_auto {
            (w0, ml0, crate::css::clamp_px_exec(mr0 + u), bl, br, pl, pr)
        } else if !ml_auto && mr_auto {
            (w0, ml0, crate::css::clamp_px_exec(u), bl, br, pl, pr)
        } else if ml_auto && !mr_auto {
            (w0, crate::css::clamp_px_exec(u), mr0, bl, br, pl, pr)
        } else {
            let half: i64 = if u >= 0 {
                u / 2
            } else {
                -((-u) / 2)
            };
            proof {
                assert(half as int == div_trunc(u as int, 2));
            }
            (
                w0,
                crate::css::clamp_px_exec(half),
                crate::css::clamp_px_exec(u - half),
                bl,
                br,
                pl,
                pr,
            )
        }
    } else {
        if u >= 0 {
            (crate::css::clamp_px_exec(u), ml0, mr0, bl, br, pl, pr)
        } else {
            (0, ml0, crate::css::clamp_px_exec(mr0 + u), bl, br, pl, pr)
        }
    }
}

/// The solved vertical edges of a block box:
/// `(margin_top, margin_bottom, border_top, border_bottom,
/// padding_top, padding_bottom)`; percentages resolve against the
/// containing width, as for the horizontal sides.
pub open spec fn solve_vertical(style: Props, cbw: int) -> (int, int, int, int, int, int) {
    (
        opt_px(lookup2_spec(style, "margin-top"@, "margin"@), cbw),
        opt_px(lookup2_spec(style, "margin-bottom"@, "margin"@), cbw),
        opt_px(lookup2_spec(style, "border-top-width"@, "border-width"@), cbw),
        opt_px(lookup2_spec(style, "border-bottom-width"@, "border-width"@), cbw),
        opt_px(lookup2_spec(style, "padding-top"@, "padding"@), cbw),
        opt_px(lookup2_spec(style, "padding-bottom"@, "padding"@), cbw),
    )
}

/// An anonymous block box with the given children and no style.
pub open spec fn anon_box(children: Seq<LayoutBoxV>) -> LayoutBoxV {
    LayoutBoxV { box_type: BoxType::Anonymous, style: Seq::empty(), dims: zero_dims(), children }
}

/// `a` with one more child box.
pub open spec fn anon_push(a: LayoutBoxV, c: LayoutBoxV) -> LayoutBoxV {
    LayoutBoxV { box_type: a.box_type, style: a.style, dims: a.dims, children: a.children.push(c) }
}

/// The box generated for a styled node, geometry not yet resolved:
/// its kind follows the computed `display`, and under a block box
/// every maximal run of consecutive inline children is wrapped in an
/// anonymous block box.
pub open spec fn build_box_spec(s: StyledV) -> LayoutBoxV
    decreases s,
{
    let d = display_of(s.props);
    LayoutBoxV {
        box_type: if d is Block {
            BoxType::Block
        } else {
            BoxType::Inline
        },
        style: s.props,
        dims: zero_dims(),
        children: build_children_spec(s.children, d is Block),
    }
}

/// The child boxes generated for a styled node's children. `display:
/// none` and unknown display kinds are omitted; under a block parent
/// (`wrap`), consecutive inline children are collected into anonymous
/// block boxes.
pub open spec fn build_children_spec(cs: Seq<StyledV>, wrap: bool) -> Seq<LayoutBoxV>
    decreases cs,
{
    if cs.len() == 0 {
        Seq::empty()
    } else {
        let rest = build_children_spec(cs.drop_last(), wrap);
        let c = cs.last();
        match display_of(c.props) {
            Display::Omitted => rest,
            Display::Block => rest.push(build_box_spec(c)),
            Display::Inline => {
                let cb = build_box_spec(c);
                if !wrap {
                    rest.push(cb)
                } else if rest.len() > 0 && rest.last().box_type is Anonymous {
                    rest.update(rest.len() - 1, anon_push(rest.last(), cb))
                } else {
                    rest.push(anon_box(seq![cb]))
                }
            },
        }
    }
}

/// Generate the (geometry-free) box tree for a styled node.
pub fn build_box(s: &StyledNode) -> (b: LayoutBox)
    ensures
        b.view() == build_box_spec(s.view()),
    decreases *s,
{
    let d = display_of_style(&s.specified);
    let wrap: bool = match d {
        Display::Block => true,
        _ => false,
    };
    let box_type = if wrap {
        BoxType::Block
    } else {
        BoxType::Inline
    };
    let mut kids: Vec<LayoutBox> = Vec::new();
    let ghost cs = StyledNode::view_seq(s.children@);
    proof {
        StyledNode::lemma_view_seq(s.children@);
        assert(LayoutBox::view_seq(kids@) =~= Seq::<LayoutBoxV>::empty());
        assert(cs.take(0) =~= Seq::<StyledV>::empty());
    }
    let mut i: usize = 0;
    while i < s.children.len()
        invariant
            0 <= i <= s.children@.len(),
            cs == StyledNode::view_seq(s.children@),
            cs.len() == s.children@.len(),
            forall|j: int|
                0 <= j < s.children@.len() ==> cs[j] == (#[trigger] s.children@[j]).view(),
            LayoutBox::view_seq(kids@) == build_children_spec(cs.take(i as int), wrap),
        decreases s.children@.len() - i,
    {
        proof {
            LayoutBox::lemma_view_seq(kids@);
            assert(cs.take(i as int + 1).drop_last() =~= cs.take(i as int));
            assert(cs.take(i as int + 1).last() == cs[i as int]);
            assert(decreases_to!(*s => (*s).children));
            assert(decreases_to!((*s).children => s.children@[i as int]));
            assert(decreases_to!(*s => s.children@[i as int]));
        }
        let cd = display_of_style(&s.children[i].specified);
        match cd {
            Display::Omitted => {},
            Display::Block => {
                let nb = build_box(&s.children[i]);
                let ghost k0 = kids@;
                let ghost nbv = nb.view();
                kids.push(nb);
                proof {
                    assert(kids@.drop_last() =~= k0);
                    assert(LayoutBox::view_seq(kids@) == LayoutBox::view_seq(k0).push(nbv));
                }
            },
            Display::Inline => {
                let nb = build_box(&s.children[i]);
                let ghost nbv = nb.view();
                let mut attach: bool = false;
                if wrap && kids.len() > 0 {
                    attach = match kids[kids.len() - 1].box_type {
                        BoxType::Anonymous => true,
                        _ => false,
                    };
                }
                if attach {
                    let ghost k0 = kids@;
                    let mut lastb = match kids.pop() {
                        Some(l) => l,
                        None => {
                            proof {
                                assert(false);
                            }
                            LayoutBox {
                                box_type: BoxType::Anonymous,
                                style: Vec::new(),
                                dimensions: default_dimensions(),
                                children: Vec::new(),
                            }
                        },
                    };
                    proof {
                        assert(kids@ =~= k0.drop_last());
                        assert(lastb == k0.last());
                        assert(LayoutBox::view_seq(k0).drop_last() =~= LayoutBox::view_seq(
                            k0.drop_last(),
                        ));
                    }
                    let ghost lb0 = lastb.view();
                    let ghost c0 = lastb.children@;
                    lastb.children.push(nb);
                    proof {
                        assert(lastb.children@.drop_last() =~= c0);
                        assert(LayoutBox::view_seq(lastb.children@) == LayoutBox::view_seq(
                            c0,
                        ).push(nbv));
                        assert(lastb.view() == anon_push(lb0, nbv));
                    }
                    let ghost k1 = kids@;
                    kids.push(lastb);
                    proof {
                        assert(kids@.drop_last() =~= k1);
                        assert(LayoutBox::view_seq(kids@) == LayoutBox::view_seq(k1).push(
                            anon_push(lb0, nbv),
                        ));
                        let rest = build_children_spec(cs.take(i as int), wrap);
                        assert(lb0 == rest.last());
                        assert(rest.update(rest.len() - 1, anon_push(rest.last(), nbv))
                            =~= rest.drop_last().push(anon_push(rest.last(), nbv)));
                    }
                } else {
                    let mut newbox = if wrap {
                        let mut anon = LayoutBox {
                            box_type: BoxType::Anonymous,
                            style: Vec::new(),
                            dimensions: default_dimensions(),
                            children: Vec::new(),
                        };
                        let ghost a0 = anon.children@;
                        anon.children.push(nb);
                        proof {
                            assert(anon.children@.drop_last() =~= a0);
                            assert(LayoutBox::view_seq(anon.children@)
                                == LayoutBox::view_seq(a0).push(nbv));
                            assert(LayoutBox::view_seq(a0) =~= Seq::<LayoutBoxV>::empty());
                            assert(decls_view(anon.style@) =~= Seq::<(Seq<char>, ValueV)>::empty());
                            assert(LayoutBox::view_seq(anon.children@) =~= seq![nbv]);
                            assert(anon.view() == anon_box(seq![nbv]));
                        }
                        anon
                    } else {
                        nb
                    };
                    let ghost k0 = kids@;
                    let ghost nv = newbox.view();
                    kids.push(newbox);
                    proof {
                        assert(kids@.drop_last() =~= k0);
                        assert(LayoutBox::view_seq(kids@) == LayoutBox::view_seq(k0).push(nv));
                    }
                }
            },
        }
        i = i + 1;
    }
    proof {
        assert(cs.take(s.children@.len() as int) =~= cs);
    }
    let style = dup_decls(&s.specified);
    let b = LayoutBox { box_type, style, dimensions: default_dimensions(), children: kids };
    proof {
        assert(b.view().children == build_children_spec(s.view().children, wrap));
    }
    b
}

/// Copy a declaration list.
pub fn dup_decls(decls: &Vec<Declaration>) -> (out: Vec<Declaration>)
    ensures
        decls_view(out@) == decls_view(decls@),
{
    let mut out: Vec<Declaration> = Vec::new();
    let mut i: usize = 0;
    proof {
        assert(decls_view(out@) =~= decls_view(decls@).take(0));
    }
    while i < decls.len()
        invariant
            0 <= i <= decls@.len(),
            decls_view(decls@).len() == decls@.len(),
            decls_view(out@) == decls_view(decls@).take(i as int),
        decreases decls@.len() - i,
    {
        let ghost before = decls_view(out@);
        let dup = decls[i].value.duplicate();
        out.push(Declaration { name: decls[i].name.clone(), value: dup });
        proof {
            assert(decls_view(out@) =~= before.push((decls@[i as int].name@, value_view(dup))));
            assert(decls_view(decls@).take(i as int + 1) =~= decls_view(decls@).take(
                i as int,
            ).push(decls_view(decls@)[i as int]));
        }
        i = i + 1;
    }
    proof {
        assert(decls_view(decls@).take(decls@.len() as int) =~= decls_view(decls@));
    }
    out
}

impl StyledNode {
    /// `view_seq` maps the forest element by element.
    pub proof fn lemma_view_seq(s: Seq<StyledNode>)
        ensures
            StyledNode::view_seq(s).len() == s.len(),
            forall|i: int|
                0 <= i < s.len() ==> StyledNode::view_seq(s)[i] == (#[trigger] s[i]).view(),
        decreases s,
    {
        if s.len() > 0 {
            StyledNode::lemma_view_seq(s.drop_last());
            assert forall|i: int| 0 <= i < s.len() implies StyledNode::view_seq(s)[i] == (
            #[trigger] s[i]).view() by {
                if i < s.len() - 1 {
                    assert(s.drop_last()[i] == s[i]);
                } else {
                    assert(s[i] == s.last());
                }
            }
        }
    }
}

impl LayoutBox {
    /// `view_seq` maps the forest element by element.
    pub proof fn lemma_view_seq(s: Seq<LayoutBox>)
        ensures
            LayoutBox::view_seq(s).len() == s.len(),
            forall|i: int|
                0 <= i < s.len() ==> LayoutBox::view_seq(s)[i] == (#[trigger] s[i]).view(),
        decreases s,
    {
        if s.len() > 0 {
            LayoutBox::lemma_view_seq(s.drop_last());
            assert forall|i: int| 0 <= i < s.len() implies LayoutBox::view_seq(s)[i] == (
            #[trigger] s[i]).view() by {
                if i < s.len() - 1 {
                    assert(s.drop_last()[i] == s[i]);
                } else {
                    assert(s[i] == s.last());
                }
            }
        }
    }
}

/// Solve a block box's vertical edges.
pub fn solve_vertical_px(style: &Vec<Declaration>, cbw: i64) -> (r: (
    i64,
    i64,
    i64,
    i64,
    i64,
    i64,
))
    requires
        px_ok(cbw as int),
    ensures
        (r.0 as int, r.1 as int, r.2 as int, r.3 as int, r.4 as int, r.5 as int) == solve_vertical(
            decls_view(style@),
            cbw as int,
        ),
        px_ok(r.0 as int) && px_ok(r.1 as int) && px_ok(r.2 as int) && px_ok(r.3 as int) && px_ok(
            r.4 as int,
        ) && px_ok(r.5 as int),
{
    (
        px_of(lookup2(style, "margin-top", "margin"), cbw),
        px_of(lookup2(style, "margin-bottom", "margin"), cbw),
        px_of(lookup2(style, "border-top-width", "border-width"), cbw),
        px_of(lookup2(style, "border-bottom-width", "border-width"), cbw),
        px_of(lookup2(style, "padding-top", "padding"), cbw),
        px_of(lookup2(style, "padding-bottom", "padding"), cbw),
    )
}

/// All fields of a rectangle within the resolved-length range.
pub open spec fn rect_ok(r: RectV) -> bool {
    px_ok(r.x) && px_ok(r.y) && px_ok(r.width) && px_ok(r.height)
}

/// All fields of an edge set within the resolved-length range.
pub open spec fn edges_ok(e: EdgesV) -> bool {
    px_ok(e.left) && px_ok(e.right) && px_ok(e.top) && px_ok(e.bottom)
}

/// All dimension fields within the resolved-length range.
pub open spec fn dims_ok(d: DimsV) -> bool {
    rect_ok(d.content) && edges_ok(d.padding) && edges_ok(d.border) && edges_ok(d.margin)
}

/// Every dimension field in the whole box tree within range.
pub open spec fn boxes_dims_ok(b: LayoutBoxV) -> bool
    decreases b,
{
    dims_ok(b.dims) && (forall|i: int|
        0 <= i < b.children.len() ==> boxes_dims_ok(#[trigger] b.children[i]))
}

/// A freshly generated box tree has all-zero, in-range dimensions.
pub proof fn lemma_build_dims_ok(s: StyledV)
    ensures
        boxes_dims_ok(build_box_spec(s)),
    decreases s,
{
    lemma_build_children_dims_ok(s.children, display_of(s.props) is Block);
    let b = build_box_spec(s);
    assert(dims_ok(b.dims));
    assert(b.children == build_children_spec(s.children, display_of(s.props) is Block));
    assert forall|i: int| 0 <= i < b.children.len() implies boxes_dims_ok(
        #[trigger] b.children[i],
    ) by {
        assert(boxes_dims_ok(build_children_spec(s.children, display_of(s.props) is Block)[i]));
    }
}

/// Each box generated for a forest of styled children is in range.
pub proof fn lemma_build_children_dims_ok(cs: Seq<StyledV>, wrap: bool)
    ensures
        forall|i: int|
            0 <= i < build_children_spec(cs, wrap).len() ==> boxes_dims_ok(
                #[trigger] build_children_spec(cs, wrap)[i],
            ),
    decreases cs,
{
    if cs.len() > 0 {
        lemma_build_children_dims_ok(cs.drop_last(), wrap);
        let rest = build_children_spec(cs.drop_last(), wrap);
        let c = cs.last();
        match display_of(c.props) {
            Display::Omitted => {},
            Display::Block => {
                lemma_build_dims_ok(c);
            },
            Display::Inline => {
                lemma_build_dims_ok(c);
                let cb = build_box_spec(c);
                if !wrap {
                } else if rest.len() > 0 && rest.last().box_type is Anonymous {
                    let a = rest.last();
                    let a2 = anon_push(a, cb);
                    assert(boxes_dims_ok(a));
                    assert forall|j: int| 0 <= j < a2.children.len() implies boxes_dims_ok(
                        #[trigger] a2.children[j],
                    ) by {
                        if j < a.children.len() {
                            assert(a2.children[j] == a.children[j]);
                        } else {
                            assert(a2.children[j] == cb);
                        }
                    }
                    assert(boxes_dims_ok(a2));
                } else {
                    let a = anon_box(seq![cb]);
                    assert(a.children[0] == cb);
                    assert(boxes_dims_ok(a));
                }
            },
        }
    }
}

/// Total height a box occupies among its siblings: content height
/// plus all vertical edges.
pub open spec fn margin_box_height(b: LayoutBoxV) -> int {
    b.dims.content.height + b.dims.padding.top + b.dims.padding.bottom + b.dims.border.top
        + b.dims.border.bottom + b.dims.margin.top + b.dims.margin.bottom
}

/// The laid-out form of a box under a containing block and a running
/// vertical cursor. Inline boxes take no geometry of their own; block
/// and anonymous boxes are solved by the block formatting algorithm:
/// width from the horizontal constraint, position from the containing
/// block's content origin, the cursor and the top edges, children
/// stacked vertically inside the content rect, and height either
/// explicit or the sum of the children's margin-box heights.
pub open spec fn layout_spec(b: LayoutBoxV, cb: RectV, cursor: int) -> LayoutBoxV
    decreases b,
{
    if b.box_type is Inline {
        b
    } else {
        let hsol = solve_width(b.style, cb.width);
        let vsol = solve_vertical(b.style, cb.width);
        let x = clamp_px(cb.x + hsol.1 + hsol.3 + hsol.5);
        let y = clamp_px(cb.y + cursor + vsol.0 + vsol.2 + vsol.4);
        let inner = RectV { x, y, width: hsol.0, height: 0 };
        let lc = layout_children_spec(b.children, inner);
        let h = match prop_lookup(b.style, "height"@) {
            Some(ValueV::Length(l)) => max0(clamp_px(l)),
            _ => max0(lc.1),
        };
        LayoutBoxV {
            box_type: b.box_type,
            style: b.style,
            dims: DimsV {
                content: RectV { x, y, width: hsol.0, height: h },
                padding: EdgesV { left: hsol.5, right: hsol.6, top: vsol.4, bottom: vsol.5 },
                border: EdgesV { left: hsol.3, right: hsol.4, top: vsol.2, bottom: vsol.3 },
                margin: EdgesV { left: hsol.1, right: hsol.2, top: vsol.0, bottom: vsol.1 },
            },
            children: lc.0,
        }
    }
}

/// Lay a forest of children out inside a content rect: each child is
/// laid out at the running cursor, which then advances by the child's
/// margin-box height. Returns the laid-out children and the final
/// cursor, the children's total stacked height.
pub open spec fn layout_children_spec(cs: Seq<LayoutBoxV>, cb: RectV) -> (Seq<LayoutBoxV>, int)
    decreases cs,
{
    if cs.len() == 0 {
        (Seq::empty(), 0)
    } else {
        let rest = layout_children_spec(cs.drop_last(), cb);
        let child = layout_spec(cs.last(), cb, rest.1);
        (rest.0.push(child), clamp_px(rest.1 + margin_box_height(child)))
    }
}

/// Lay out one box (and its subtree) against a containing block.
pub fn layout_box(bx: &LayoutBox, cb: Rect, cursor: i64) -> (r: LayoutBox)
    requires
        boxes_dims_ok(bx.view()),
        rect_ok(rect_view(cb)),
        px_ok(cursor as int),
    ensures
        r.view() == layout_spec(bx.view(), rect_view(cb), cursor as int),
        boxes_dims_ok(r.view()),
    decreases *bx,
{
    match bx.box_type {
        BoxType::Inline => {
            return copy_box(bx);
        },
        _ => {},
    }
    let (w, ml, mr, bl, br, pl, pr) = solve_width_px(&bx.style, cb.width);
    let (mt, mb, bt, bb, pt, pb) = solve_vertical_px(&bx.style, cb.width);
    let x = crate::css::clamp_px_exec(cb.x + ml + bl + pl);
    let y = crate::css::clamp_px_exec(cb.y + cursor + mt + bt + pt);
    let inner = Rect { x, y, width: w, height: 0 };
    let ghost csv = bx.view().children;
    let mut new_children: Vec<LayoutBox> = Vec::new();
    let mut cur: i64 = 0;
    let mut i: usize = 0;
    proof {
        LayoutBox::lemma_view_seq(bx.children@);
        assert(csv.take(0) =~= Seq::<LayoutBoxV>::empty());
        assert(LayoutBox::view_seq(new_children@) =~= Seq::<LayoutBoxV>::empty());
    }
    while i < bx.children.len()
        invariant
            0 <= i <= bx.children@.len(),
            csv == LayoutBox::view_seq(bx.children@),
            csv.len() == bx.children@.len(),
            forall|j: int|
                0 <= j < bx.children@.len() ==> csv[j] == (#[trigger] bx.children@[j]).view(),
            boxes_dims_ok(bx.view()),
            bx.view().children == csv,
            rect_ok(rect_view(inner)),
            LayoutBox::view_seq(new_children@) == layout_children_spec(
                csv.take(i as int),
                rect_view(inner),
            ).0,
            cur as int == layout_children_spec(csv.take(i as int), rect_view(inner)).1,
            px_ok(cur as int),
            forall|j: int|
                0 <= j < LayoutBox::view_seq(new_children@).len() ==> boxes_dims_ok(
                    #[trigger] LayoutBox::view_seq(new_children@)[j],
                ),
        decreases bx.children@.len() - i,
    {
        proof {
            assert(csv.take(i as int + 1).drop_last() =~= csv.take(i as int));
            assert(csv.take(i as int + 1).last() == csv[i as int]);
            assert(boxes_dims_ok(csv[i as int]));
            assert(decreases_to!(*bx => (*bx).children));
            assert(decreases_to!((*bx).children => bx.children@[i as int]));
            assert(decreases_to!(*bx => bx.children@[i as int]));
        }
        let c = layout_box(&bx.children[i], inner, cur);
        let mbh: i64 = c.dimensions.content.height + c.dimensions.padding.top
            + c.dimensions.padding.bottom + c.dimensions.border.top + c.dimensions.border.bottom
            + c.dimensions.margin.top + c.dimensions.margin.bottom;
        proof {
            assert(mbh as int == margin_box_height(c.view()));
        }
        cur = crate::css::clamp_px_exec(cur + mbh);
        let ghost k0 = new_children@;
        let ghost cv = c.view();
        new_children.push(c);
        proof {
            assert(new_children@.drop_last() =~= k0);
            assert(LayoutBox::view_seq(new_children@) == LayoutBox::view_seq(k0).push(cv));
            assert forall|j: int|
                0 <= j < LayoutBox::view_seq(new_children@).len() implies boxes_dims_ok(
                #[trigger] LayoutBox::view_seq(new_children@)[j],
            ) by {
                if j < LayoutBox::view_seq(k0).len() {
                    assert(LayoutBox::view_seq(new_children@)[j] == LayoutBox::view_seq(k0)[j]);
                } else {
                    assert(LayoutBox::view_seq(new_children@)[j] == cv);
                }
            }
        }
        i = i + 1;
    }
    proof {
        assert(csv.take(bx.children@.len() as int) =~= csv);
    }
    let h: i64 = match lookup_decl(&bx.style, &"height".to_owned()) {
        Some(Value::Length(l)) => {
            let lc = crate::css::clamp_px_exec(*l);
            if lc < 0 {
                0
            } else {
                lc
            }
        },
        _ => {
            if cur < 0 {
                0
            } else {
                cur
            }
        },
    };
    let dimensions = Dimensions {
        content: Rect { x, y, width: w, height: h },
        padding: EdgeSizes { left: pl, right: pr, top: pt, bottom: pb },
        border: EdgeSizes { left: bl, right: br, top: bt, bottom: bb },
        margin: EdgeSizes { left: ml, right: mr, top: mt, bottom: mb },
    };
    let style = dup_decls(&bx.style);
    let r = LayoutBox { box_type: bx.box_type, style, dimensions, children: new_children };
    proof {
        assert(r.view().children == layout_spec(bx.view(), rect_view(cb), cursor as int).children);
        assert(r.view().dims == layout_spec(bx.view(), rect_view(cb), cursor as int).dims);
        assert(boxes_dims_ok(r.view()));
    }
    r
}

/// Copy a box tree.
pub fn copy_box(bx: &LayoutBox) -> (r: LayoutBox)
    ensures
        r.view() == bx.view(),
    decreases *bx,
{
    let mut kids: Vec<LayoutBox> = Vec::new();
    let ghost csv = LayoutBox::view_seq(bx.children@);
    let mut i: usize = 0;
    proof {
        LayoutBox::lemma_view_seq(bx.children@);
        assert(csv.take(0) =~= Seq::<LayoutBoxV>::empty());
        assert(LayoutBox::view_seq(kids@) =~= Seq::<LayoutBoxV>::empty());
    }
    while i < bx.children.len()
        invariant
            0 <= i <= bx.children@.len(),
            csv == LayoutBox::view_seq(bx.children@),
            csv.len() == bx.children@.len(),
            forall|j: int|
                0 <= j < bx.children@.len() ==> csv[j] == (#[trigger] bx.children@[j]).view(),
            LayoutBox::view_seq(kids@) == csv.take(i as int),
        decreases bx.children@.len() - i,
    {
        proof {
            assert(csv.take(i as int + 1).drop_last() =~= csv.take(i as int));
            assert(csv.take(i as int + 1).last() == csv[i as int]);
            assert(decreases_to!(*bx => (*bx).children));
            assert(decreases_to!((*bx).children => bx.children@[i as int]));
            assert(decreases_to!(*bx => bx.children@[i as int]));
        }
        let c = copy_box(&bx.children[i]);
        let ghost k0 = kids@;
        let ghost cv = c.view();
        kids.push(c);
        proof {
            assert(kids@.drop_last() =~= k0);
            assert(LayoutBox::view_seq(kids@) == LayoutBox::view_seq(k0).push(cv));
            assert(csv.take(i as int + 1) =~= csv.take(i as int).push(csv[i as int]));
        }
        i = i + 1;
    }
    proof {
        assert(csv.take(bx.children@.len() as int) =~= csv);
    }
    LayoutBox {
        box_type: bx.box_type,
        style: dup_decls(&bx.style),
        dimensions: bx.dimensions,
        children: kids,
    }
}

/// Why layout cannot proceed.
#[derive(Clone, Copy, PartialEq, Eq, Structural, Debug)]
pub enum LayoutError {
    ViewportEmpty,
    RootNotBlock,
}

/// The layout of a whole style tree: an error when the viewport is
/// degenerate or the root is not a block box, else the laid-out box
/// tree of the root under the viewport as containing block.
pub open spec fn layout_tree_spec(s: StyledV, vp: RectV) -> Result<LayoutBoxV, LayoutError> {
    if vp.width <= 0 || vp.height <= 0 {
        Result::Err(LayoutError::ViewportEmpty)
    } else if !(display_of(s.props) is Block) {
        Result::Err(LayoutError::RootNotBlock)
    } else {
        Result::Ok(layout_spec(build_box_spec(s), vp, 0))
    }
}

/// Generate and lay out the box tree of a style tree inside a
/// viewport. Fails exactly when the viewport's width or height is not
/// positive, or when the root node is not a block box.
pub fn layout_tree(root: &StyledNode, viewport: Rect) -> (r: Result<LayoutBox, LayoutError>)
    requires
        rect_ok(rect_view(viewport)),
    ensures
        match r {
            Ok(b) => layout_tree_spec(root.view(), rect_view(viewport)) == Result::<
                LayoutBoxV,
                LayoutError,
            >::Ok(b.view()) && boxes_dims_ok(b.view()),
            Err(e) => layout_tree_spec(root.view(), rect_view(viewport)) == Result::<
                LayoutBoxV,
                LayoutError,
            >::Err(e),
        },
{
    if viewport.width <= 0 || viewport.height <= 0 {
        return Err(LayoutError::ViewportEmpty);
    }
    match display_of_style(&root.specified) {
        Display::Block => {},
        _ => {
            return Err(LayoutError::RootNotBlock);
        },
    }
    let b = build_box(root);
    proof {
        lemma_build_dims_ok(root.view());
    }
    Ok(layout_box(&b, viewport, 0))
}

/// Number of styled nodes that generate a box: a node whose display
/// kind is omitted contributes nothing, any other contributes itself
/// and its visible descendants. For a resolver-produced style tree
/// the omitted nodes are exactly the `display: none` ones, so this is
/// the style tree's node count minus the omitted subtrees' counts.
pub open spec fn visible_count(s: StyledV) -> nat
    decreases s,
{
    if display_of(s.props) is Omitted {
        0
    } else {
        1 + visible_count_seq(s.children)
    }
}

/// Total visible count of a styled forest.
pub open spec fn visible_count_seq(cs: Seq<StyledV>) -> nat
    decreases cs,
{
    if cs.len() == 0 {
        0
    } else {
        visible_count_seq(cs.drop_last()) + visible_count(cs.last())
    }
}

/// Number of non-anonymous boxes in a box tree.
pub open spec fn box_count(b: LayoutBoxV) -> nat
    decreases b,
{
    (if b.box_type is Anonymous {
        0nat
    } else {
        1nat
    }) + box_count_seq(b.children)
}

/// Total non-anonymous box count of a forest.
pub open spec fn box_count_seq(cs: Seq<LayoutBoxV>) -> nat
    decreases cs,
{
    if cs.len() == 0 {
        0
    } else {
        box_count_seq(cs.drop_last()) + box_count(cs.last())
    }
}

/// Box generation preserves counts: the generated tree holds one
/// non-anonymous box per visible styled node.
pub proof fn lemma_build_count(s: StyledV)
    requires
        !(display_of(s.props) is Omitted),
    ensures
        box_count(build_box_spec(s)) == visible_count(s),
    decreases s,
{
    lemma_build_children_count(s.children, display_of(s.props) is Block);
}

/// Appending a box adds its count.
proof fn lemma_box_count_seq_push(cs: Seq<LayoutBoxV>, b: LayoutBoxV)
    ensures
        box_count_seq(cs.push(b)) == box_count_seq(cs) + box_count(b),
{
    assert(cs.push(b).drop_last() =~= cs);
    assert(cs.push(b).last() == b);
}

/// Box generation preserves counts across a forest of children.
pub proof fn lemma_build_children_count(cs: Seq<StyledV>, wrap: bool)
    ensures
        box_count_seq(build_children_spec(cs, wrap)) == visible_count_seq(cs),
    decreases cs,
{
    if cs.len() > 0 {
        lemma_build_children_count(cs.drop_last(), wrap);
        let rest = build_children_spec(cs.drop_last(), wrap);
        let c = cs.last();
        match display_of(c.props) {
            Display::Omitted => {
                assert(build_children_spec(cs, wrap) == rest);
                assert(visible_count(c) == 0);
            },
            Display::Block => {
                lemma_build_count(c);
                lemma_box_count_seq_push(rest, build_box_spec(c));
                assert(build_children_spec(cs, wrap) == rest.push(build_box_spec(c)));
            },
            Display::Inline => {
                lemma_build_count(c);
                let cb = build_box_spec(c);
                if !wrap {
                    lemma_box_count_seq_push(rest, cb);
                    assert(build_children_spec(cs, wrap) == rest.push(cb));
                } else if rest.len() > 0 && rest.last().box_type is Anonymous {
                    assert(build_children_spec(cs, wrap) == rest.update(
                        rest.len() - 1,
                        anon_push(rest.last(), cb),
                    ));
                    let a = rest.last();
                    let a2 = anon_push(a, cb);
                    let upd = rest.update(rest.len() - 1, a2);
                    assert(upd =~= rest.drop_last().push(a2));
                    lemma_box_count_seq_push(rest.drop_last(), a2);
                    lemma_box_count_seq_push(a.children, cb);
                    assert(box_count(a2) == box_count_seq(a.children) + box_count(cb));
                    assert(box_count(a) == box_count_seq(a.children));
                    assert(rest =~= rest.drop_last().push(a));
                    lemma_box_count_seq_push(rest.drop_last(), a);
                } else {
                    let a = anon_box(seq![cb]);
                    assert(seq![cb] =~= Seq::<LayoutBoxV>::empty().push(cb));
                    lemma_box_count_seq_push(Seq::empty(), cb);
                    assert(box_count_seq(Seq::<LayoutBoxV>::empty()) == 0);
                    assert(box_count(a) == box_count(cb));
                    lemma_box_count_seq_push(rest, a);
                    assert(build_children_spec(cs, wrap) == rest.push(a));
                }
                assert(visible_count(c) == 1 + visible_count_seq(c.children));
            },
        }
    }
}

/// Geometry resolution preserves the box tree's structure: no box is
/// added or removed by layout.
pub proof fn lemma_layout_count(b: LayoutBoxV, cb: RectV, cursor: int)
    ensures
        box_count(layout_spec(b, cb, cursor)) == box_count(b),
    decreases b,
{
    if !(b.box_type is Inline) {
        let hsol = solve_width(b.style, cb.width);
        let vsol = solve_vertical(b.style, cb.width);
        let x = clamp_px(cb.x + hsol.1 + hsol.3 + hsol.5);
        let y = clamp_px(cb.y + cursor + vsol.0 + vsol.2 + vsol.4);
        let inner = RectV { x, y, width: hsol.0, height: 0 };
        lemma_layout_children_count(b.children, inner);
    }
}

/// Laying children out preserves their count and kinds.
pub proof fn lemma_layout_children_count(cs: Seq<LayoutBoxV>, cb: RectV)
    ensures
        box_count_seq(layout_children_spec(cs, cb).0) == box_count_seq(cs),
    decreases cs,
{
    if cs.len() > 0 {
        lemma_layout_children_count(cs.drop_last(), cb);
        let rest = layout_children_spec(cs.drop_last(), cb);
        let child = layout_spec(cs.last(), cb, rest.1);
        lemma_layout_count(cs.last(), cb, rest.1);
        lemma_box_count_seq_push(rest.0, child);
    }
}

/// The layout tree holds exactly one non-anonymous box per visible
/// styled node: the style tree's node count minus the omitted
/// subtrees' node counts.
pub proof fn lemma_layout_node_count(s: StyledV, vp: RectV)
    requires
        layout_tree_spec(s, vp) is Ok,
    ensures
        box_count(layout_tree_spec(s, vp)->Ok_0) == visible_count(s),
{
    lemma_build_count(s);
    lemma_layout_count(build_box_spec(s), vp, 0);
}

/// The normal-flow width constraint: when neither the width nor a
/// horizontal margin is `auto`, the resolved left margin, border and
/// padding, the content width, and the right padding, border and
/// margin together fill the containing block's content width exactly
/// (the right margin absorbs any slack or overflow). Stated for
/// resolved lengths away from the saturation bound.
pub proof fn lemma_block_width_fills(style: Props, cbw: int)
    requires
        !(prop_lookup(style, "width"@) is None || opt_is_auto(prop_lookup(style, "width"@))),
        !opt_is_auto(lookup2_spec(style, "margin-left"@, "margin"@)),
        !opt_is_auto(lookup2_spec(style, "margin-right"@, "margin"@)),
        -1073741824 <= cbw <= 1073741824,
        -1073741824 <= opt_px(prop_lookup(style, "width"@), cbw) <= 1073741824,
        -1073741824 <= opt_px(lookup2_spec(style, "margin-left"@, "margin"@), cbw) <= 1073741824,
        -1073741824 <= opt_px(lookup2_spec(style, "margin-right"@, "margin"@), cbw) <= 1073741824,
        -1073741824 <= opt_px(lookup2_spec(style, "border-left-width"@, "border-width"@), cbw)
            <= 1073741824,
        -1073741824 <= opt_px(lookup2_spec(style, "border-right-width"@, "border-width"@), cbw)
            <= 1073741824,
        -1073741824 <= opt_px(lookup2_spec(style, "padding-left"@, "padding"@), cbw) <= 1073741824,
        -1073741824 <= opt_px(lookup2_spec(style, "padding-right"@, "padding"@), cbw)
            <= 1073741824,
    ensures
        ({
            let r = solve_width(style, cbw);
            r.1 + r.3 + r.5 + r.0 + r.6 + r.4 + r.2 == cbw
        }),
{
}

} // verus!
