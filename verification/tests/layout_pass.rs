use robinson::css::{Declaration, Value};
use robinson::layout::{
    build_layout_tree, layout_tree, BoxType, Dimensions, EdgeSizes, LayoutBox, Rect,
    StructuralError,
};
use robinson::style::{Display, StyledNode};

fn decl(name: &str, value: Value) -> Declaration {
    Declaration { name: String::from(name), value }
}

fn kw(s: &str) -> Value {
    Value::Keyword(String::from(s))
}

fn px(fixed: i64) -> Value {
    Value::Length(fixed, robinson::css::Unit::Px)
}

fn node(decls: Vec<Declaration>, children: Vec<StyledNode>) -> StyledNode {
    StyledNode { specified: decls, children }
}

fn block(mut decls: Vec<Declaration>, children: Vec<StyledNode>) -> StyledNode {
    decls.insert(0, decl("display", kw("block")));
    node(decls, children)
}

fn viewport(width_fixed: i64) -> Dimensions {
    let mut d = Dimensions::default();
    d.content.width = width_fixed;
    d
}

fn layed(root: &StyledNode, cb_width: i64) -> LayoutBox<'_> {
    layout_tree(root, viewport(cb_width)).expect("layout should succeed")
}

#[test]
fn styled_node_queries() {
    let n = block(vec![decl("width", px(50_000))], vec![]);
    assert_eq!(n.display(), Display::Block);
    assert_eq!(n.value("width").unwrap().to_px(), 50_000);
    assert!(n.value("height").is_none());
    let fallback = px(7_000);
    assert_eq!(n.lookup("margin-left", "margin", &fallback).to_px(), 7_000);
}

#[test]
fn width_auto_fills_container() {
    // width=auto, margins fixed at 0: the box grows to the full 100px.
    let root = block(
        vec![decl("margin-left", px(0)), decl("margin-right", px(0))],
        vec![],
    );
    let b = layed(&root, 100_000);
    assert_eq!(b.dimensions.content.width, 100_000);
    assert_eq!(b.dimensions.margin.left, 0);
    assert_eq!(b.dimensions.margin.right, 0);
}

#[test]
fn width_fixed_auto_margins_split_evenly() {
    // width=50, both margins auto: each margin takes 25.
    let root = block(
        vec![
            decl("width", px(50_000)),
            decl("margin-left", kw("auto")),
            decl("margin-right", kw("auto")),
        ],
        vec![],
    );
    let b = layed(&root, 100_000);
    assert_eq!(b.dimensions.content.width, 50_000);
    assert_eq!(b.dimensions.margin.left, 25_000);
    assert_eq!(b.dimensions.margin.right, 25_000);
}

#[test]
fn width_overflow_forces_auto_margin_to_zero() {
    // width=120 exceeds the 100 container: the auto margin is exhausted
    // to zero and the explicit width stands; the negative slack lands in
    // margin-right.
    let root = block(
        vec![decl("width", px(120_000)), decl("margin-left", kw("auto"))],
        vec![],
    );
    let b = layed(&root, 100_000);
    assert_eq!(b.dimensions.margin.left, 0);
    assert_eq!(b.dimensions.content.width, 120_000);
    assert_eq!(b.dimensions.margin.right, -20_000);
}

#[test]
fn width_over_constrained_slack_into_margin_right() {
    // width=50, margins 10 and 10: total 70, underflow 30, and the whole
    // slack is absorbed by margin-right alone.
    let root = block(
        vec![
            decl("width", px(50_000)),
            decl("margin-left", px(10_000)),
            decl("margin-right", px(10_000)),
        ],
        vec![],
    );
    let b = layed(&root, 100_000);
    assert_eq!(b.dimensions.content.width, 50_000);
    assert_eq!(b.dimensions.margin.left, 10_000);
    assert_eq!(b.dimensions.margin.right, 40_000);
}

#[test]
fn width_auto_negative_underflow_collapses_to_zero() {
    // width=auto but the fixed edges alone overflow the container: the
    // width floors at zero and margin-right absorbs the overshoot.
    let root = block(
        vec![decl("padding-left", px(120_000)), decl("margin-right", px(0))],
        vec![],
    );
    let b = layed(&root, 100_000);
    assert_eq!(b.dimensions.content.width, 0);
    assert_eq!(b.dimensions.margin.right, -20_000);
}

#[test]
fn vertical_stacking_of_block_children() {
    // Two block children, 20 and 30 high: the parent's auto height is 50
    // and the second child sits exactly 20 below the first.
    let c1 = block(vec![decl("height", px(20_000))], vec![]);
    let c2 = block(vec![decl("height", px(30_000))], vec![]);
    let root = block(vec![], vec![c1, c2]);
    let b = layed(&root, 100_000);
    assert_eq!(b.dimensions.content.height, 50_000);
    assert_eq!(b.children.len(), 2);
    let y0 = b.children[0].dimensions.content.y;
    let y1 = b.children[1].dimensions.content.y;
    assert_eq!(y1, y0 + 20_000);
    assert_eq!(b.children[0].dimensions.content.height, 20_000);
    assert_eq!(b.children[1].dimensions.content.height, 30_000);
}

#[test]
fn explicit_height_overrides_children() {
    let c1 = block(vec![decl("height", px(20_000))], vec![]);
    let root = block(vec![decl("height", px(5_000))], vec![c1]);
    let b = layed(&root, 100_000);
    assert_eq!(b.dimensions.content.height, 5_000);
}

#[test]
fn position_accounts_for_edges() {
    let root = block(
        vec![
            decl("margin-left", px(1_000)),
            decl("border-left-width", px(2_000)),
            decl("padding-left", px(3_000)),
            decl("margin-top", px(4_000)),
            decl("border-top-width", px(5_000)),
            decl("padding-top", px(6_000)),
        ],
        vec![],
    );
    let b = layed(&root, 100_000);
    assert_eq!(b.dimensions.content.x, 6_000);
    assert_eq!(b.dimensions.content.y, 15_000);
}

#[test]
fn anonymous_block_grouping() {
    // Children in display order [Inline, Inline, Block, Inline] become
    // [AnonymousBlock{2 inline boxes}, Block, AnonymousBlock{1 inline box}].
    let root = block(
        vec![],
        vec![
            node(vec![], vec![]),
            node(vec![], vec![]),
            block(vec![], vec![]),
            node(vec![], vec![]),
        ],
    );
    let b = build_layout_tree(&root).expect("build should succeed");
    assert_eq!(b.children.len(), 3);
    assert!(matches!(b.children[0].box_type, BoxType::AnonymousBlock));
    assert_eq!(b.children[0].children.len(), 2);
    assert!(matches!(b.children[0].children[0].box_type, BoxType::InlineNode(_)));
    assert!(matches!(b.children[0].children[1].box_type, BoxType::InlineNode(_)));
    assert!(matches!(b.children[1].box_type, BoxType::BlockNode(_)));
    assert!(matches!(b.children[2].box_type, BoxType::AnonymousBlock));
    assert_eq!(b.children[2].children.len(), 1);
}

#[test]
fn display_none_subtree_is_pruned() {
    // The hidden child contributes no box, even though its own children
    // are block-level.
    let hidden = node(
        vec![decl("display", kw("none"))],
        vec![block(vec![], vec![]), node(vec![], vec![])],
    );
    let root = block(vec![], vec![block(vec![], vec![]), hidden, block(vec![], vec![])]);
    let b = build_layout_tree(&root).expect("build should succeed");
    assert_eq!(b.children.len(), 2);
    assert!(matches!(b.children[0].box_type, BoxType::BlockNode(_)));
    assert!(matches!(b.children[1].box_type, BoxType::BlockNode(_)));
}

#[test]
fn display_none_root_is_a_structural_error() {
    let root = node(vec![decl("display", kw("none"))], vec![]);
    match layout_tree(&root, viewport(100_000)) {
        Err(StructuralError::RootDisplayNone) => {}
        _ => panic!("a display:none root must fail the layout pass"),
    }
}

#[test]
fn layout_is_pure_across_runs() {
    // Re-running layout with unchanged inputs yields identical dimensions.
    let c1 = block(vec![decl("height", px(20_000))], vec![]);
    let root = block(vec![decl("margin-left", kw("auto")), decl("width", px(40_000))], vec![c1]);
    let a = layed(&root, 100_000);
    let b = layed(&root, 100_000);
    assert_eq!(a.dimensions, b.dimensions);
    assert_eq!(a.children.len(), b.children.len());
    assert_eq!(a.children[0].dimensions, b.children[0].dimensions);
}

#[test]
fn inline_root_is_a_layout_no_op() {
    let root = node(vec![], vec![]);
    let b = layed(&root, 100_000);
    assert!(matches!(b.box_type, BoxType::InlineNode(_)));
    assert_eq!(b.dimensions, Dimensions::default());
}

#[test]
fn margin_box_expands_by_border_twice() {
    // The margin box is the border box expanded by the border edges a
    // second time — the margin edges play no part in it.
    let d = Dimensions {
        content: Rect { x: 0, y: 0, width: 100_000, height: 10_000 },
        padding: EdgeSizes { left: 2_000, right: 2_000, top: 1_000, bottom: 1_000 },
        border: EdgeSizes { left: 5_000, right: 5_000, top: 3_000, bottom: 3_000 },
        margin: EdgeSizes { left: 7_000, right: 7_000, top: 7_000, bottom: 7_000 },
    };
    assert_eq!(d.padding_box().width, 104_000);
    assert_eq!(d.border_box().width, 114_000);
    assert_eq!(d.margin_box().width, 124_000);
    assert_eq!(d.margin_box().x, -12_000);
    assert_eq!(d.margin_box().height, 24_000);
}

#[test]
fn style_node_of_a_block_box() {
    let root = block(vec![decl("width", px(10_000))], vec![]);
    let b = build_layout_tree(&root).expect("build should succeed");
    let style = b.get_style_node();
    assert_eq!(style.value("width").unwrap().to_px(), 10_000);
}

#[test]
fn px_scale_is_a_thousand_steps_per_pixel() {
    assert_eq!(robinson::css::PX_SCALE, 1000);
    // One pixel declared as "1px" equals PX_SCALE fixed-point steps.
    let v = px(robinson::css::PX_SCALE);
    assert_eq!(v.to_px(), 1000);
}

#[test]
fn width_single_auto_margin_resolves_to_zero() {
    // width=50, margin-left=10, margin-right=auto against 100: the single
    // auto margin resolves to 0 and the slack stays undistributed — the
    // row underfills the container on purpose.
    let root = block(
        vec![
            decl("width", px(50_000)),
            decl("margin-left", px(10_000)),
            decl("margin-right", kw("auto")),
        ],
        vec![],
    );
    let b = layed(&root, 100_000);
    assert_eq!(b.dimensions.content.width, 50_000);
    assert_eq!(b.dimensions.margin.left, 10_000);
    assert_eq!(b.dimensions.margin.right, 0);
}

#[test]
fn width_single_auto_left_margin_resolves_to_zero() {
    // The mirrored row: margin-left=auto beside a fixed width and a fixed
    // margin-right also resolves to 0.
    let root = block(
        vec![
            decl("width", px(50_000)),
            decl("margin-left", kw("auto")),
            decl("margin-right", px(10_000)),
        ],
        vec![],
    );
    let b = layed(&root, 100_000);
    assert_eq!(b.dimensions.content.width, 50_000);
    assert_eq!(b.dimensions.margin.left, 0);
    assert_eq!(b.dimensions.margin.right, 10_000);
}

#[test]
fn width_double_auto_odd_underflow_fills_exactly() {
    // An odd underflow split between two auto margins: the left takes the
    // half rounded toward zero, the right the remainder, so the three
    // resolved values fill the container exactly.
    let root = block(
        vec![
            decl("width", px(50_000)),
            decl("margin-left", kw("auto")),
            decl("margin-right", kw("auto")),
        ],
        vec![],
    );
    let b = layed(&root, 100_001);
    assert_eq!(b.dimensions.margin.left, 25_000);
    assert_eq!(b.dimensions.margin.right, 25_001);
    assert_eq!(
        b.dimensions.margin.left + b.dimensions.content.width + b.dimensions.margin.right,
        100_001
    );
}
