use boxrender::css::{Color, Declaration, Rule, Selector, Stylesheet, Value};
use boxrender::dom::Node;
use boxrender::layout::{layout_tree, solve_width_px, LayoutBox, BoxType, LayoutError, Rect};
use boxrender::painting::{build_display_list, paint, rasterize, Canvas, DrawCommand};
use boxrender::pdf::serialize;
use boxrender::style::{style_tree, StyleConfig, StyledNode};
use boxrender::window::Window;

fn decl(name: &str, value: Value) -> Declaration {
    Declaration { name: name.to_string(), value }
}

fn keyword(k: &str) -> Value {
    Value::Keyword(k.to_string())
}

fn tag_selector(tag: &str) -> Selector {
    Selector { tag: Some(tag.to_string()), id: None, classes: vec![] }
}

fn empty_config() -> StyleConfig {
    StyleConfig { inherited: vec![], initial: vec![] }
}

fn block_config() -> StyleConfig {
    StyleConfig { inherited: vec![], initial: vec![decl("display", keyword("block"))] }
}

fn elem(tag: &str, attrs: Vec<(String, String)>, children: Vec<Node>) -> Node {
    Node::Element { tag: tag.to_string(), attrs, children }
}

fn styled(specified: Vec<Declaration>, children: Vec<StyledNode>) -> StyledNode {
    StyledNode { specified, children }
}

fn lookup<'a>(decls: &'a [Declaration], name: &str) -> Option<&'a Value> {
    decls.iter().find(|d| d.name == name).map(|d| &d.value)
}

#[test]
fn cascade_later_rule_wins_on_equal_specificity() {
    let sheet = Stylesheet {
        rules: vec![
            Rule {
                selectors: vec![tag_selector("p")],
                declarations: vec![decl("color", Value::ColorValue(Color { r: 1, g: 0, b: 0, a: 255 }))],
            },
            Rule {
                selectors: vec![tag_selector("p")],
                declarations: vec![decl("color", Value::ColorValue(Color { r: 0, g: 2, b: 0, a: 255 }))],
            },
        ],
    };
    let doc = elem("p", vec![], vec![]);
    let st = style_tree(&doc, &sheet, &block_config()).expect("styled");
    match lookup(&st.specified, "color") {
        Some(Value::ColorValue(c)) => assert_eq!((c.r, c.g), (0, 2)),
        other => panic!("unexpected color value: {:?}", other),
    }
}

#[test]
fn cascade_higher_specificity_wins() {
    let sheet = Stylesheet {
        rules: vec![
            Rule {
                selectors: vec![Selector {
                    tag: Some("p".to_string()),
                    id: Some("main".to_string()),
                    classes: vec![],
                }],
                declarations: vec![decl("width", Value::Length(10))],
            },
            Rule {
                selectors: vec![tag_selector("p")],
                declarations: vec![decl("width", Value::Length(99))],
            },
        ],
    };
    let doc = elem("p", vec![("id".to_string(), "main".to_string())], vec![]);
    let st = style_tree(&doc, &sheet, &block_config()).expect("styled");
    assert_eq!(lookup(&st.specified, "width"), Some(&Value::Length(10)));
}

#[test]
fn class_selector_matches_space_separated_word() {
    let sheet = Stylesheet {
        rules: vec![Rule {
            selectors: vec![Selector {
                tag: None,
                id: None,
                classes: vec!["note".to_string()],
            }],
            declarations: vec![decl("width", Value::Length(7))],
        }],
    };
    let with_class = elem("p", vec![("class".to_string(), "big note red".to_string())], vec![]);
    let st = style_tree(&with_class, &sheet, &block_config()).expect("styled");
    assert_eq!(lookup(&st.specified, "width"), Some(&Value::Length(7)));

    let without = elem("p", vec![("class".to_string(), "notes".to_string())], vec![]);
    let st2 = style_tree(&without, &sheet, &block_config()).expect("styled");
    assert_eq!(lookup(&st2.specified, "width"), None);
}

#[test]
fn inheritance_and_initial_values() {
    let config = StyleConfig {
        inherited: vec!["color".to_string()],
        initial: vec![decl("display", keyword("block")), decl("font-size", Value::Length(16))],
    };
    let sheet = Stylesheet {
        rules: vec![Rule {
            selectors: vec![tag_selector("div")],
            declarations: vec![decl("color", Value::ColorValue(Color { r: 9, g: 9, b: 9, a: 255 }))],
        }],
    };
    let doc = elem("div", vec![], vec![elem("p", vec![], vec![])]);
    let st = style_tree(&doc, &sheet, &config).expect("styled");
    let child = &st.children[0];
    match lookup(&child.specified, "color") {
        Some(Value::ColorValue(c)) => assert_eq!(c.r, 9),
        other => panic!("color not inherited: {:?}", other),
    }
    assert_eq!(lookup(&child.specified, "font-size"), Some(&Value::Length(16)));
}

#[test]
fn display_none_subtree_is_excluded_from_style_tree() {
    let sheet = Stylesheet {
        rules: vec![Rule {
            selectors: vec![tag_selector("aside")],
            declarations: vec![decl("display", keyword("none"))],
        }],
    };
    let doc = elem(
        "div",
        vec![],
        vec![
            elem("aside", vec![], vec![elem("p", vec![], vec![]), elem("p", vec![], vec![])]),
            elem("p", vec![], vec![]),
        ],
    );
    let st = style_tree(&doc, &sheet, &block_config()).expect("styled");
    assert_eq!(st.children.len(), 1);
}

fn count_non_anonymous(b: &LayoutBox) -> usize {
    let own = if matches!(b.box_type, BoxType::Anonymous) { 0 } else { 1 };
    own + b.children.iter().map(count_non_anonymous).sum::<usize>()
}

#[test]
fn layout_box_count_matches_visible_style_nodes() {
    let root = styled(
        vec![decl("display", keyword("block"))],
        vec![
            styled(vec![decl("display", keyword("block"))], vec![]),
            styled(vec![decl("display", keyword("none"))], vec![
                styled(vec![decl("display", keyword("block"))], vec![]),
            ]),
            styled(vec![decl("display", keyword("inline"))], vec![]),
        ],
    );
    let vp = Rect { x: 0, y: 0, width: 800, height: 600 };
    let lb = layout_tree(&root, vp).expect("layout");
    // root + block child + inline child; the none subtree is gone, and
    // the anonymous wrapper around the inline run is not counted.
    assert_eq!(count_non_anonymous(&lb), 3);
}

#[test]
fn auto_margins_center_a_fixed_width_block() {
    let root = styled(
        vec![
            decl("display", keyword("block")),
            decl("width", Value::Length(400)),
            decl("margin-left", keyword("auto")),
            decl("margin-right", keyword("auto")),
        ],
        vec![],
    );
    let vp = Rect { x: 0, y: 0, width: 800, height: 600 };
    let lb = layout_tree(&root, vp).expect("layout");
    assert_eq!(lb.dimensions.content.x, 200);
    assert_eq!(lb.dimensions.content.width, 400);
}

#[test]
fn sibling_blocks_stack_vertically() {
    let root = styled(
        vec![decl("display", keyword("block"))],
        vec![
            styled(
                vec![decl("display", keyword("block")), decl("height", Value::Length(50))],
                vec![],
            ),
            styled(
                vec![decl("display", keyword("block")), decl("height", Value::Length(30))],
                vec![],
            ),
        ],
    );
    let vp = Rect { x: 0, y: 0, width: 800, height: 600 };
    let lb = layout_tree(&root, vp).expect("layout");
    assert_eq!(lb.children.len(), 2);
    assert_eq!(lb.children[0].dimensions.content.y, 0);
    assert_eq!(lb.children[1].dimensions.content.y, 50);
    assert_eq!(lb.dimensions.content.height, 80);
}

#[test]
fn display_none_child_contributes_no_boxes_and_no_height() {
    let root = styled(
        vec![decl("display", keyword("block"))],
        vec![
            styled(
                vec![decl("display", keyword("none")), decl("height", Value::Length(50))],
                vec![
                    styled(vec![decl("display", keyword("block"))], vec![]),
                    styled(vec![decl("display", keyword("block"))], vec![]),
                ],
            ),
            styled(
                vec![decl("display", keyword("block")), decl("height", Value::Length(30))],
                vec![],
            ),
        ],
    );
    let vp = Rect { x: 0, y: 0, width: 800, height: 600 };
    let lb = layout_tree(&root, vp).expect("layout");
    assert_eq!(lb.children.len(), 1);
    assert_eq!(lb.dimensions.content.height, 30);
}

#[test]
fn over_constrained_box_pushes_excess_into_right_margin() {
    let style = vec![
        decl("width", Value::Length(600)),
        decl("margin-left", Value::Length(300)),
        decl("margin-right", Value::Length(100)),
    ];
    let (w, ml, mr, bl, br, pl, pr) = solve_width_px(&style, 800);
    assert_eq!(w, 600);
    assert_eq!(ml, 300);
    assert_eq!(mr, -100);
    assert_eq!(ml + bl + pl + w + pr + br + mr, 800);
}

#[test]
fn percentage_resolves_against_containing_width() {
    let v = Value::Percentage(50);
    assert_eq!(v.to_px(200), 100);
    assert_eq!(v.to_px(0), 0);
    assert_eq!(Value::Percentage(-50).to_px(200), -100);
    assert_eq!(Value::Keyword("auto".to_string()).to_px(200), 0);
}

#[test]
fn anonymous_boxes_wrap_inline_runs() {
    let root = styled(
        vec![decl("display", keyword("block"))],
        vec![
            styled(vec![decl("display", keyword("inline"))], vec![]),
            styled(vec![decl("display", keyword("inline"))], vec![]),
            styled(vec![decl("display", keyword("block"))], vec![]),
            styled(vec![decl("display", keyword("inline"))], vec![]),
        ],
    );
    let vp = Rect { x: 0, y: 0, width: 100, height: 100 };
    let lb = layout_tree(&root, vp).expect("layout");
    assert_eq!(lb.children.len(), 3);
    assert!(matches!(lb.children[0].box_type, BoxType::Anonymous));
    assert_eq!(lb.children[0].children.len(), 2);
    assert!(matches!(lb.children[1].box_type, BoxType::Block));
    assert!(matches!(lb.children[2].box_type, BoxType::Anonymous));
    assert_eq!(lb.children[2].children.len(), 1);
}

#[test]
fn empty_viewport_is_a_fatal_error() {
    let root = styled(vec![decl("display", keyword("block"))], vec![]);
    let vp = Rect { x: 0, y: 0, width: 0, height: 600 };
    assert_eq!(layout_tree(&root, vp), Err(LayoutError::ViewportEmpty));
    let vp2 = Rect { x: 0, y: 0, width: 800, height: -1 };
    assert_eq!(layout_tree(&root, vp2), Err(LayoutError::ViewportEmpty));
}

#[test]
fn non_block_root_is_a_fatal_error() {
    let root = styled(vec![decl("display", keyword("inline"))], vec![]);
    let vp = Rect { x: 0, y: 0, width: 800, height: 600 };
    assert_eq!(layout_tree(&root, vp), Err(LayoutError::RootNotBlock));
}

#[test]
fn painting_is_deterministic() {
    let root = styled(
        vec![
            decl("display", keyword("block")),
            decl("height", Value::Length(40)),
            decl("background", Value::ColorValue(Color { r: 10, g: 20, b: 30, a: 255 })),
        ],
        vec![],
    );
    let vp = Rect { x: 0, y: 0, width: 800, height: 600 };
    let lb1 = layout_tree(&root, vp).expect("layout");
    let lb2 = layout_tree(&root, vp).expect("layout");
    let c1 = paint(&lb1, vp);
    let c2 = paint(&lb2, vp);
    assert_eq!(c1, c2);
}

#[test]
fn rasterize_clips_and_overwrites_in_order() {
    let cmds = vec![
        DrawCommand::SolidRect {
            rect: Rect { x: -2, y: -2, width: 100, height: 100 },
            color: Color { r: 1, g: 1, b: 1, a: 255 },
        },
        DrawCommand::SolidRect {
            rect: Rect { x: 1, y: 1, width: 2, height: 1 },
            color: Color { r: 2, g: 2, b: 2, a: 255 },
        },
    ];
    let c: Canvas = rasterize(&cmds, 4, 3);
    assert_eq!(c.pixels.len(), 12);
    // covered by the first command only
    assert_eq!(c.pixels[0].r, 1);
    // overwritten by the second command
    assert_eq!(c.pixels[1 * 4 + 1].r, 2);
    assert_eq!(c.pixels[1 * 4 + 2].r, 2);
    // right of the second command's rectangle
    assert_eq!(c.pixels[1 * 4 + 3].r, 1);
}

#[test]
fn untouched_canvas_pixels_stay_transparent() {
    let cmds: Vec<DrawCommand> = vec![];
    let c = rasterize(&cmds, 2, 2);
    for p in &c.pixels {
        assert_eq!((p.r, p.g, p.b, p.a), (0, 0, 0, 0));
    }
}

#[test]
fn background_fill_appears_in_display_list() {
    let root = styled(
        vec![
            decl("display", keyword("block")),
            decl("height", Value::Length(10)),
            decl("background", Value::ColorValue(Color { r: 5, g: 6, b: 7, a: 255 })),
            decl("border-color", Value::ColorValue(Color { r: 8, g: 8, b: 8, a: 255 })),
            decl("border-left-width", Value::Length(2)),
        ],
        vec![],
    );
    let vp = Rect { x: 0, y: 0, width: 100, height: 100 };
    let lb = layout_tree(&root, vp).expect("layout");
    let cmds = build_display_list(&lb);
    // one background fill and four border edges
    assert_eq!(cmds.len(), 5);
    match cmds[0] {
        DrawCommand::SolidRect { rect, color } => {
            assert_eq!(color.r, 5);
            assert_eq!(rect.width, 100);
        },
    }
}

#[test]
fn pdf_document_has_header_xref_and_trailer() {
    let cmds = vec![DrawCommand::SolidRect {
        rect: Rect { x: 10, y: 20, width: 30, height: 40 },
        color: Color { r: 0, g: 255, b: 51, a: 255 },
    }];
    let out = serialize(&cmds, 800, 600);
    assert!(out.starts_with("%PDF-1.4\n"));
    assert!(out.ends_with("%%EOF\n"));
    assert!(out.contains("/Type /Catalog"));
    assert!(out.contains("/MediaBox [0 0 800 600]"));
    // y is flipped: 600 - 20 - 40 = 540
    assert!(out.contains("10 540 30 40 re\nf\n"));
    // 0 -> 0.0000, 255 -> 1, 51 -> 0.2000
    assert!(out.contains("0.0000 1 0.2000 rg\n"));
    assert!(out.contains("xref\n0 5\n0000000000 65535 f \n"));
    assert!(out.contains("trailer\n<< /Size 5 /Root 1 0 R >>\nstartxref\n"));
}

#[test]
fn pdf_xref_offsets_point_at_objects() {
    let cmds: Vec<DrawCommand> = vec![];
    let out = serialize(&cmds, 100, 100);
    let bytes = out.as_bytes();
    let xref_pos = out.find("xref\n0 5\n").expect("xref");
    let entries: Vec<&str> = out[xref_pos..].lines().skip(3).take(4).collect();
    for (i, e) in entries.iter().enumerate() {
        let off: usize = e[..10].parse().expect("offset");
        let expected = format!("{} 0 obj\n", i + 1);
        assert_eq!(&out[off..off + expected.len()], expected, "object {} offset", i + 1);
    }
    assert!(bytes.len() > 0);
}

#[test]
fn pipeline_renders_a_nested_document() {
    let sheet = Stylesheet {
        rules: vec![
            Rule {
                selectors: vec![tag_selector("body")],
                declarations: vec![
                    decl("background", Value::ColorValue(Color { r: 200, g: 200, b: 200, a: 255 })),
                ],
            },
            Rule {
                selectors: vec![tag_selector("div")],
                declarations: vec![
                    decl("width", Value::Percentage(50)),
                    decl("height", Value::Length(100)),
                    decl("background", Value::ColorValue(Color { r: 0, g: 0, b: 255, a: 255 })),
                ],
            },
        ],
    };
    let doc = elem("body", vec![], vec![elem("div", vec![], vec![])]);
    let st = style_tree(&doc, &sheet, &block_config()).expect("styled");
    let vp = Rect { x: 0, y: 0, width: 800, height: 600 };
    let lb = layout_tree(&st, vp).expect("layout");
    assert_eq!(lb.children[0].dimensions.content.width, 400);
    assert_eq!(lb.children[0].dimensions.content.height, 100);
    assert_eq!(lb.dimensions.content.height, 100);
    let canvas = paint(&lb, vp);
    // inside the div
    assert_eq!(canvas.pixels[50 * 800 + 50].b, 255);
    // right of the div: body background
    assert_eq!(canvas.pixels[50 * 800 + 500].r, 200);
}

#[test]
fn window_swap_buffer_replaces_canvas() {
    let c1 = rasterize(&vec![], 2, 2);
    let c2 = rasterize(
        &vec![DrawCommand::SolidRect {
            rect: Rect { x: 0, y: 0, width: 2, height: 2 },
            color: Color { r: 9, g: 0, b: 0, a: 255 },
        }],
        2,
        2,
    );
    let mut w = Window::new(2, 2, c1);
    assert_eq!(w.canvas.pixels[0].r, 0);
    w.swap_buffer(c2);
    assert_eq!(w.canvas.pixels[0].r, 9);
    assert_eq!(w.width, 2);
    assert_eq!(w.height, 2);
}

#[test]
fn root_styled_display_none_yields_no_style_tree() {
    let sheet = Stylesheet {
        rules: vec![Rule {
            selectors: vec![tag_selector("body")],
            declarations: vec![decl("display", keyword("none"))],
        }],
    };
    let doc = elem("body", vec![], vec![elem("p", vec![], vec![])]);
    assert!(style_tree(&doc, &sheet, &block_config()).is_none());
}

#[test]
fn margin_shorthand_applies_to_all_sides() {
    let style = vec![decl("width", Value::Length(100)), decl("margin", Value::Length(10))];
    let (w, ml, mr, _, _, _, _) = solve_width_px(&style, 800);
    assert_eq!(w, 100);
    assert_eq!(ml, 10);
    // over-constraint resolution recomputes the right margin
    assert_eq!(mr, 800 - 100 - 10);
}

#[test]
fn inline_parent_keeps_inline_children_unwrapped() {
    let root = styled(
        vec![decl("display", keyword("block"))],
        vec![styled(
            vec![decl("display", keyword("inline"))],
            vec![styled(vec![decl("display", keyword("inline"))], vec![])],
        )],
    );
    let vp = Rect { x: 0, y: 0, width: 100, height: 100 };
    let lb = layout_tree(&root, vp).expect("layout");
    assert_eq!(lb.children.len(), 1);
    assert!(matches!(lb.children[0].box_type, BoxType::Anonymous));
    let inline_box = &lb.children[0].children[0];
    assert!(matches!(inline_box.box_type, BoxType::Inline));
    assert_eq!(inline_box.children.len(), 1);
    assert!(matches!(inline_box.children[0].box_type, BoxType::Inline));
}

#[test]
fn get_attr_finds_first_binding() {
    let attrs = vec![
        ("id".to_string(), "a".to_string()),
        ("class".to_string(), "b".to_string()),
    ];
    assert_eq!(boxrender::dom::get_attr(&attrs, &"id".to_string()), Some(&"a".to_string()));
    assert_eq!(boxrender::dom::get_attr(&attrs, &"href".to_string()), None);
}
