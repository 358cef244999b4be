//! Painter: walks the box tree in paint order, emits drawing commands
//! for backgrounds and borders, and rasterizes them into a pixel
//! canvas. Later commands overwrite earlier ones where they overlap;
//! there is no blending.

use vstd::prelude::*;
use crate::css::{Color, Declaration, Props, Value, ValueV, prop_lookup, lookup_decl, decls_view};
use crate::layout::{DimsV, LayoutBox, LayoutBoxV, Rect, RectV, boxes_dims_ok, dims_ok, rect_view};

verus! {

/// A drawing command: fill a rectangle with a solid color.
#[derive(Clone, Copy, PartialEq, Eq, Structural, Debug)]
pub enum DrawCommand {
    SolidRect { rect: Rect, color: Color },
}

/// Model of a drawing command.
pub struct CommandV {
    pub rect: RectV,
    pub color: Color,
}

/// Model of a command.
pub open spec fn cmd_view(c: DrawCommand) -> CommandV {
    match c {
        DrawCommand::SolidRect { rect, color } => CommandV { rect: rect_view(rect), color },
    }
}

/// Model of a command list, in paint order.
pub open spec fn cmds_view(s: Seq<DrawCommand>) -> Seq<CommandV> {
    s.map_values(|c: DrawCommand| cmd_view(c))
}

/// Color a style binds to a property, if it binds one.
pub open spec fn get_color(style: Props, name: Seq<char>) -> Option<Color> {
    match prop_lookup(style, name) {
        Some(ValueV::ColorValue(c)) => Some(c),
        _ => None,
    }
}

/// Border box of a box: its content area expanded by padding and
/// border on every side.
pub open spec fn border_box(d: DimsV) -> RectV {
    RectV {
        x: d.content.x - d.padding.left - d.border.left,
        y: d.content.y - d.padding.top - d.border.top,
        width: d.content.width + d.padding.left + d.padding.right + d.border.left + d.border.right,
        height: d.content.height + d.padding.top + d.padding.bottom + d.border.top
            + d.border.bottom,
    }
}

/// The commands one box emits before its children: its background
/// fill over the border box, then its four border edges.
pub open spec fn box_commands(b: LayoutBoxV) -> Seq<CommandV> {
    let bb = border_box(b.dims);
    let bg: Seq<CommandV> = match get_color(b.style, "background"@) {
        Some(c) => seq![CommandV { rect: bb, color: c }],
        None => Seq::empty(),
    };
    let bc: Seq<CommandV> = match get_color(b.style, "border-color"@) {
        Some(c) => seq![
            CommandV {
                rect: RectV { x: bb.x, y: bb.y, width: b.dims.border.left, height: bb.height },
                color: c,
            },
            CommandV {
                rect: RectV {
                    x: bb.x + bb.width - b.dims.border.right,
                    y: bb.y,
                    width: b.dims.border.right,
                    height: bb.height,
                },
                color: c,
            },
            CommandV {
                rect: RectV { x: bb.x, y: bb.y, width: bb.width, height: b.dims.border.top },
                color: c,
            },
            CommandV {
                rect: RectV {
                    x: bb.x,
                    y: bb.y + bb.height - b.dims.border.bottom,
                    width: bb.width,
                    height: b.dims.border.bottom,
                },
                color: c,
            },
        ],
        None => Seq::empty(),
    };
    bg + bc
}

/// The display list of a box tree: the box's own commands, then each
/// child's list in order — pre-order, so children paint over parents.
pub open spec fn display_list_spec(b: LayoutBoxV) -> Seq<CommandV>
    decreases b,
{
    box_commands(b) + display_list_children(b.children)
}

/// Display lists of a forest, concatenated in order.
pub open spec fn display_list_children(cs: Seq<LayoutBoxV>) -> Seq<CommandV>
    decreases cs,
{
    if cs.len() == 0 {
        Seq::empty()
    } else {
        display_list_children(cs.drop_last()) + display_list_spec(cs.last())
    }
}

/// Read a color property of a computed style.
fn color_of(style: &Vec<Declaration>, name: &str) -> (r: Option<Color>)
    ensures
        r == get_color(decls_view(style@), name@),
{
    match lookup_decl(style, &name.to_owned()) {
        Some(Value::ColorValue(c)) => Some(*c),
        _ => None,
    }
}

/// Append the commands of one box and its subtree to `out`.
fn render_box(b: &LayoutBox, out: &mut Vec<DrawCommand>)
    requires
        boxes_dims_ok(b.view()),
    ensures
        cmds_view(final(out)@) == cmds_view(old(out)@) + display_list_spec(b.view()),
    decreases *b,
{
    let ghost start = cmds_view(out@);
    let d = b.dimensions;
    let bbx: i64 = d.content.x - d.padding.left - d.border.left;
    let bby: i64 = d.content.y - d.padding.top - d.border.top;
    let bbw: i64 = d.content.width + d.padding.left + d.padding.right + d.border.left
        + d.border.right;
    let bbh: i64 = d.content.height + d.padding.top + d.padding.bottom + d.border.top
        + d.border.bottom;
    match color_of(&b.style, "background") {
        Some(c) => {
            let ghost o0 = out@;
            out.push(
                DrawCommand::SolidRect {
                    rect: Rect { x: bbx, y: bby, width: bbw, height: bbh },
                    color: c,
                },
            );
            proof {
                assert(out@.drop_last() =~= o0);
                assert(cmds_view(out@) =~= cmds_view(o0).push(cmd_view(out@.last())));
            }
        },
        None => {},
    }
    match color_of(&b.style, "border-color") {
        Some(c) => {
            let ghost o0 = out@;
            out.push(
                DrawCommand::SolidRect {
                    rect: Rect { x: bbx, y: bby, width: d.border.left, height: bbh },
                    color: c,
                },
            );
            out.push(
                DrawCommand::SolidRect {
                    rect: Rect {
                        x: bbx + bbw - d.border.right,
                        y: bby,
                        width: d.border.right,
                        height: bbh,
                    },
                    color: c,
                },
            );
            out.push(
                DrawCommand::SolidRect {
                    rect: Rect { x: bbx, y: bby, width: bbw, height: d.border.top },
                    color: c,
                },
            );
            out.push(
                DrawCommand::SolidRect {
                    rect: Rect {
                        x: bbx,
                        y: bby + bbh - d.border.bottom,
                        width: bbw,
                        height: d.border.bottom,
                    },
                    color: c,
                },
            );
            proof {
                assert(cmds_view(out@) =~= cmds_view(o0) + seq![
                    cmd_view(out@[out@.len() - 4]),
                    cmd_view(out@[out@.len() - 3]),
                    cmd_view(out@[out@.len() - 2]),
                    cmd_view(out@[out@.len() - 1]),
                ]);
            }
        },
        None => {},
    }
    proof {
        assert(cmds_view(out@) =~= start + box_commands(b.view()));
    }
    let ghost mid = cmds_view(out@);
    let ghost csv = LayoutBox::view_seq(b.children@);
    let mut i: usize = 0;
    proof {
        LayoutBox::lemma_view_seq(b.children@);
        assert(csv.take(0) =~= Seq::<LayoutBoxV>::empty());
        assert(mid + display_list_children(csv.take(0)) =~= mid);
    }
    while i < b.children.len()
        invariant
            0 <= i <= b.children@.len(),
            csv == LayoutBox::view_seq(b.children@),
            csv.len() == b.children@.len(),
            forall|j: int|
                0 <= j < b.children@.len() ==> csv[j] == (#[trigger] b.children@[j]).view(),
            boxes_dims_ok(b.view()),
            b.view().children == csv,
            cmds_view(out@) == mid + display_list_children(csv.take(i as int)),
        decreases b.children@.len() - i,
    {
        proof {
            assert(csv.take(i as int + 1).drop_last() =~= csv.take(i as int));
            assert(csv.take(i as int + 1).last() == csv[i as int]);
            assert(boxes_dims_ok(csv[i as int]));
            assert(decreases_to!(*b => (*b).children));
            assert(decreases_to!((*b).children => b.children@[i as int]));
            assert(decreases_to!(*b => b.children@[i as int]));
        }
        render_box(&b.children[i], out);
        proof {
            assert(cmds_view(out@) =~= mid + display_list_children(csv.take(i as int + 1)));
        }
        i = i + 1;
    }
    proof {
        assert(csv.take(b.children@.len() as int) =~= csv);
        assert(cmds_view(out@) =~= start + display_list_spec(b.view()));
    }
}

/// Build the display list of a laid-out box tree, in paint order.
pub fn build_display_list(root: &LayoutBox) -> (out: Vec<DrawCommand>)
    requires
        boxes_dims_ok(root.view()),
    ensures
        cmds_view(out@) == display_list_spec(root.view()),
{
    let mut out: Vec<DrawCommand> = Vec::new();
    proof {
        assert(cmds_view(out@) =~= Seq::<CommandV>::empty());
    }
    render_box(root, &mut out);
    out
}

/// A pixel canvas: row-major RGBA pixels, `width * height` of them.
#[derive(Debug, PartialEq)]
pub struct Canvas {
    pub width: usize,
    pub height: usize,
    pub pixels: Vec<Color>,
}

/// The fully transparent pixel the canvas is cleared to.
pub open spec fn transparent() -> Color {
    Color { r: 0, g: 0, b: 0, a: 0 }
}

/// Whether a command's rectangle covers the pixel at `(x, y)`.
pub open spec fn covers(c: CommandV, x: int, y: int) -> bool {
    &&& c.rect.x <= x < c.rect.x + c.rect.width
    &&& c.rect.y <= y < c.rect.y + c.rect.height
}

/// The color of the pixel at `(x, y)` after a command list is drawn:
/// the color of the last command covering it, or transparent.
pub open spec fn pixel_at(cmds: Seq<CommandV>, x: int, y: int) -> Color
    decreases cmds.len(),
{
    if cmds.len() == 0 {
        transparent()
    } else if covers(cmds.last(), x, y) {
        cmds.last().color
    } else {
        pixel_at(cmds.drop_last(), x, y)
    }
}

/// Row-major indexing is injective over one canvas.
proof fn lemma_rowmajor_unique(w: int, x1: int, y1: int, x2: int, y2: int)
    by (nonlinear_arith)
    requires
        0 <= x1 < w,
        0 <= x2 < w,
        0 <= y1,
        0 <= y2,
        y1 * w + x1 == y2 * w + x2,
    ensures
        x1 == x2 && y1 == y2,
{
}

/// A row-major index stays below the pixel count.
proof fn lemma_rowmajor_bound(w: int, h: int, x: int, y: int)
    by (nonlinear_arith)
    requires
        0 <= x < w,
        0 <= y < h,
    ensures
        0 <= y * w + x < w * h,
{
}

/// Whether a command's rectangle covers the pixel at `(x, y)`.
fn covers_px(rect: Rect, x: usize, y: usize) -> (r: bool)
    ensures
        r == covers(
            CommandV { rect: rect_view(rect), color: transparent() },
            x as int,
            y as int,
        ),
{
    let xi: i128 = x as i128;
    let yi: i128 = y as i128;
    (rect.x as i128) <= xi && xi < (rect.x as i128) + (rect.width as i128) && (rect.y as i128)
        <= yi && yi < (rect.y as i128) + (rect.height as i128)
}

/// Rasterize a command list into a canvas of the given size: the
/// canvas starts fully transparent, and the commands are drawn in
/// order, each overwriting the pixels its rectangle covers, clipped
/// to the canvas.
pub fn rasterize(cmds: &Vec<DrawCommand>, width: usize, height: usize) -> (c: Canvas)
    requires
        width * height <= usize::MAX,
    ensures
        c.width == width,
        c.height == height,
        c.pixels@.len() == width * height,
        forall|x: int, y: int|
            0 <= x < width && 0 <= y < height ==> c.pixels@[y * width + x] == pixel_at(
                cmds_view(cmds@),
                x,
                y,
            ),
{
    let total: usize = width * height;
    let mut pixels: Vec<Color> = Vec::new();
    let mut t: usize = 0;
    while t < total
        invariant
            0 <= t <= total,
            pixels@.len() == t,
            forall|p: int| 0 <= p < t ==> pixels@[p] == transparent(),
        decreases total - t,
    {
        pixels.push(Color { r: 0, g: 0, b: 0, a: 0 });
        t = t + 1;
    }
    proof {
        assert forall|x: int, y: int| #![trigger pixels@[y * width + x]] 0 <= x < width && 0 <= y
            < height implies pixels@[y * width + x] == pixel_at(cmds_view(cmds@).take(0), x, y) by {
            lemma_rowmajor_bound(width as int, height as int, x, y);
            assert(cmds_view(cmds@).take(0) =~= Seq::<CommandV>::empty());
        }
    }
    let mut k: usize = 0;
    while k < cmds.len()
        invariant
            0 <= k <= cmds@.len(),
            cmds_view(cmds@).len() == cmds@.len(),
            width * height <= usize::MAX,
            pixels@.len() == width * height,
            forall|x: int, y: int|
                #![trigger pixels@[y * width + x]]
                0 <= x < width && 0 <= y < height ==> pixels@[y * width + x] == pixel_at(
                    cmds_view(cmds@).take(k as int),
                    x,
                    y,
                ),
        decreases cmds@.len() - k,
    {
        let ghost prev = cmds_view(cmds@).take(k as int);
        let ghost ck = cmds_view(cmds@)[k as int];
        let cmd = cmds[k];
        let rect = match cmd {
            DrawCommand::SolidRect { rect, .. } => rect,
        };
        let color = match cmd {
            DrawCommand::SolidRect { color, .. } => color,
        };
        proof {
            assert(ck == cmd_view(cmds@[k as int]));
            assert(ck.rect == rect_view(rect) && ck.color == color);
        }
        let mut y: usize = 0;
        let mut idx: usize = 0;
        while y < height
            invariant
                0 <= y <= height,
                idx == y * width,
                width * height <= usize::MAX,
                pixels@.len() == width * height,
                ck.rect == rect_view(rect) && ck.color == color,
                forall|xp: int, yp: int|
                    #![trigger pixels@[yp * width + xp]]
                    0 <= xp < width && 0 <= yp < height ==> pixels@[yp * width + xp] == (if yp
                        < y && covers(ck, xp, yp) {
                        ck.color
                    } else {
                        pixel_at(prev, xp, yp)
                    }),
            decreases height - y,
        {
            let mut x: usize = 0;
            while x < width
                invariant
                    0 <= x <= width,
                    0 <= y < height,
                    idx == y * width + x,
                    width * height <= usize::MAX,
                    pixels@.len() == width * height,
                    ck.rect == rect_view(rect) && ck.color == color,
                    forall|xp: int, yp: int|
                        #![trigger pixels@[yp * width + xp]]
                        0 <= xp < width && 0 <= yp < height ==> pixels@[yp * width + xp] == (if (yp
                            < y && covers(ck, xp, yp)) || (yp == y && xp < x && covers(
                            ck,
                            xp,
                            yp,
                        )) {
                            ck.color
                        } else {
                            pixel_at(prev, xp, yp)
                        }),
                decreases width - x,
            {
                proof {
                    lemma_rowmajor_bound(width as int, height as int, x as int, y as int);
                }
                if covers_px(rect, x, y) {
                    let ghost p0 = pixels@;
                    pixels[idx] = color;
                    proof {
                        assert(pixels@ =~= p0.update(idx as int, color));
                        assert forall|xp: int, yp: int|
                            #![trigger pixels@[yp * width + xp]]
                            0 <= xp < width && 0 <= yp < height implies pixels@[yp * width + xp]
                            == (if (yp < y && covers(ck, xp, yp)) || (yp == y && xp < x + 1
                                && covers(ck, xp, yp)) {
                            ck.color
                        } else {
                            pixel_at(prev, xp, yp)
                        }) by {
                            lemma_rowmajor_bound(width as int, height as int, xp, yp);
                            assert(p0[yp * width + xp] == (if (yp < y && covers(ck, xp, yp)) || (
                            yp == y && xp < x && covers(ck, xp, yp)) {
                                ck.color
                            } else {
                                pixel_at(prev, xp, yp)
                            }));
                            if yp * width + xp == idx {
                                lemma_rowmajor_unique(width as int, xp, yp, x as int, y as int);
                                assert(xp == x && yp == y);
                                assert(covers(ck, xp, yp));
                                assert(pixels@[yp * width + xp] == ck.color);
                            } else {
                                assert(pixels@[yp * width + xp] == p0[yp * width + xp]);
                                assert(!(xp == x && yp == y)) by {
                                    if xp == x && yp == y {
                                        assert(yp * width + xp == idx);
                                    }
                                }
                            }
                        }
                    }
                } else {
                    proof {
                        assert forall|xp: int, yp: int|
                            #![trigger pixels@[yp * width + xp]]
                            0 <= xp < width && 0 <= yp < height implies pixels@[yp * width + xp]
                            == (if (yp < y && covers(ck, xp, yp)) || (yp == y && xp < x + 1
                                && covers(ck, xp, yp)) {
                            ck.color
                        } else {
                            pixel_at(prev, xp, yp)
                        }) by {
                            if xp == x && yp == y {
                                assert(!covers(ck, xp, yp));
                            }
                        }
                    }
                }
                x = x + 1;
                idx = idx + 1;
            }
            proof {
                assert((y as int + 1) * (width as int) == y as int * (width as int)
                    + width as int) by (nonlinear_arith);
            }
            y = y + 1;
        }
        proof {
            assert(cmds_view(cmds@).take(k as int + 1).drop_last() =~= prev);
            assert(cmds_view(cmds@).take(k as int + 1).last() == ck);
            assert forall|xp: int, yp: int|
                #![trigger pixels@[yp * width + xp]]
                0 <= xp < width && 0 <= yp < height implies pixels@[yp * width + xp] == pixel_at(
                cmds_view(cmds@).take(k as int + 1),
                xp,
                yp,
            ) by {}
        }
        k = k + 1;
    }
    proof {
        assert(cmds_view(cmds@).take(cmds@.len() as int) =~= cmds_view(cmds@));
    }
    Canvas { width, height, pixels }
}

/// Every coordinate of a command within a range that downstream
/// arithmetic cannot overflow on.
pub open spec fn cmd_bounds(c: CommandV) -> bool {
    &&& -9007199254740992 <= c.rect.x <= 9007199254740992
    &&& -9007199254740992 <= c.rect.y <= 9007199254740992
    &&& -9007199254740992 <= c.rect.width <= 9007199254740992
    &&& -9007199254740992 <= c.rect.height <= 9007199254740992
}

/// A box with in-range dimensions emits in-range commands.
proof fn lemma_box_commands_bounds(b: LayoutBoxV)
    requires
        dims_ok(b.dims),
    ensures
        forall|k: int|
            0 <= k < box_commands(b).len() ==> cmd_bounds(#[trigger] box_commands(b)[k]),
{
}

/// The display list of a box tree with in-range dimensions holds only
/// in-range commands.
pub proof fn lemma_display_list_bounds(b: LayoutBoxV)
    requires
        boxes_dims_ok(b),
    ensures
        forall|k: int|
            0 <= k < display_list_spec(b).len() ==> cmd_bounds(#[trigger] display_list_spec(b)[k]),
    decreases b,
{
    lemma_box_commands_bounds(b);
    lemma_display_list_children_bounds(b.children);
    let bc = box_commands(b);
    let dc = display_list_children(b.children);
    assert forall|k: int| 0 <= k < display_list_spec(b).len() implies cmd_bounds(
        #[trigger] display_list_spec(b)[k],
    ) by {
        if k < bc.len() {
            assert(display_list_spec(b)[k] == bc[k]);
        } else {
            assert(display_list_spec(b)[k] == dc[k - bc.len()]);
        }
    }
}

/// Bounds for the concatenated display lists of a forest.
proof fn lemma_display_list_children_bounds(cs: Seq<LayoutBoxV>)
    requires
        forall|i: int| 0 <= i < cs.len() ==> boxes_dims_ok(#[trigger] cs[i]),
    ensures
        forall|k: int|
            0 <= k < display_list_children(cs).len() ==> cmd_bounds(
                #[trigger] display_list_children(cs)[k],
            ),
    decreases cs,
{
    if cs.len() > 0 {
        assert(forall|i: int|
            0 <= i < cs.drop_last().len() ==> boxes_dims_ok(#[trigger] cs.drop_last()[i]));
        lemma_display_list_children_bounds(cs.drop_last());
        assert(boxes_dims_ok(cs[cs.len() - 1]));
        lemma_display_list_bounds(cs.last());
        let rest = display_list_children(cs.drop_last());
        let lastl = display_list_spec(cs.last());
        assert forall|k: int| 0 <= k < display_list_children(cs).len() implies cmd_bounds(
            #[trigger] display_list_children(cs)[k],
        ) by {
            if k < rest.len() {
                assert(display_list_children(cs)[k] == rest[k]);
            } else {
                assert(display_list_children(cs)[k] == lastl[k - rest.len()]);
            }
        }
    }
}

/// Paint a laid-out box tree into a fresh canvas sized to `bounds`.
pub fn paint(root: &LayoutBox, bounds: Rect) -> (c: Canvas)
    requires
        boxes_dims_ok(root.view()),
        0 <= bounds.width,
        0 <= bounds.height,
        bounds.width as int <= usize::MAX,
        bounds.height as int <= usize::MAX,
        bounds.width * bounds.height <= usize::MAX,
    ensures
        c.width == bounds.width as usize,
        c.height == bounds.height as usize,
        c.pixels@.len() == c.width * c.height,
        forall|x: int, y: int|
            0 <= x < c.width && 0 <= y < c.height ==> c.pixels@[y * c.width + x] == pixel_at(
                display_list_spec(root.view()),
                x,
                y,
            ),
{
    let cmds = build_display_list(root);
    let w = bounds.width as usize;
    let h = bounds.height as usize;
    proof {
        assert(w * h == bounds.width * bounds.height);
    }
    rasterize(&cmds, w, h)
}

/// Painting is deterministic: any two pixel buffers that each hold,
/// at every canvas position, the color the command list paints there,
/// are equal — so two renderings of identical input are byte for byte
/// the same canvas.
pub proof fn lemma_paint_deterministic(
    cmds: Seq<CommandV>,
    w: nat,
    h: nat,
    p1: Seq<Color>,
    p2: Seq<Color>,
)
    requires
        p1.len() == w * h,
        p2.len() == w * h,
        forall|x: int, y: int|
            0 <= x < w && 0 <= y < h ==> p1[y * w + x] == pixel_at(cmds, x, y),
        forall|x: int, y: int|
            0 <= x < w && 0 <= y < h ==> p2[y * w + x] == pixel_at(cmds, x, y),
    ensures
        p1 == p2,
{
    assert forall|i: int| 0 <= i < p1.len() implies p1[i] == p2[i] by {
        vstd::arithmetic::div_mod::lemma_fundamental_div_mod(i, w as int);
        vstd::arithmetic::div_mod::lemma_mod_bound(i, w as int);
        let y = i / (w as int);
        let x = i % (w as int);
        assert(i == y * (w as int) + x) by (nonlinear_arith)
            requires
                i == (w as int) * y + x,
        ;
        assert(0 <= y < h) by (nonlinear_arith)
            requires
                0 <= i < w * h,
                i == (w as int) * y + x,
                0 <= x < w,
        ;
        assert(p1[y * (w as int) + x] == pixel_at(cmds, x, y));
        assert(p2[y * (w as int) + x] == pixel_at(cmds, x, y));
    }
    assert(p1 =~= p2);
}

} // verus!
