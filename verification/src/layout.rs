//! The box model and block layout engine: building a box tree from a styled
//! tree (grouping inline runs under anonymous blocks), then computing each
//! box's geometry — width resolution, position, children, height.
//!
//! All geometry is fixed-point pixels (thousandths of a pixel) in `i64`;
//! sums saturate at the ends of the `i64` range.

use vstd::prelude::*;
use crate::css::{Unit, Value, ValueV};
use crate::style::{Display, StyledNode, node_display, node_lookup, node_value};

verus! {

// ---------------------------------------------------------------------
// Saturating fixed-point arithmetic
// ---------------------------------------------------------------------
/// Clamp an integer into the `i64` range.
pub open spec fn clip(x: int) -> i64 {
    if x > i64::MAX {
        i64::MAX
    } else if x < i64::MIN {
        i64::MIN
    } else {
        x as i64
    }
}

/// Saturating sum.
pub open spec fn sat_add(a: i64, b: i64) -> i64 {
    clip(a + b)
}

/// Saturating difference.
pub open spec fn sat_sub(a: i64, b: i64) -> i64 {
    clip(a - b)
}

/// Half of a value, rounded toward zero.
pub open spec fn half(a: i64) -> i64 {
    if a >= 0 {
        (a as int / 2) as i64
    } else {
        (0 - ((0 - a as int) / 2)) as i64
    }
}

/// Saturating sum, executable.
pub fn add_px(a: i64, b: i64) -> (r: i64)
    ensures
        r == sat_add(a, b),
{
    let s: i128 = a as i128 + b as i128;
    if s > i64::MAX as i128 {
        i64::MAX
    } else if s < i64::MIN as i128 {
        i64::MIN
    } else {
        s as i64
    }
}

/// Saturating difference, executable.
pub fn sub_px(a: i64, b: i64) -> (r: i64)
    ensures
        r == sat_sub(a, b),
{
    let s: i128 = a as i128 - b as i128;
    if s > i64::MAX as i128 {
        i64::MAX
    } else if s < i64::MIN as i128 {
        i64::MIN
    } else {
        s as i64
    }
}

/// Half of a value, rounded toward zero, executable.
pub fn half_px(a: i64) -> (r: i64)
    ensures
        r == half(a),
{
    if a >= 0 {
        ((a as u64) / 2u64) as i64
    } else {
        let m: u128 = (-(a as i128)) as u128;
        let q: u128 = m / 2u128;
        proof {
            assert(m == 0 - a as int);
            assert(q == (0 - a as int) / 2);
        }
        (-(q as i128)) as i64
    }
}

// ---------------------------------------------------------------------
// Geometry
// ---------------------------------------------------------------------
/// A rectangle in document coordinates: origin top-left, y grows downward.
#[derive(Clone, Copy, PartialEq, Eq, Structural, Debug)]
pub struct Rect {
    pub x: i64,
    pub y: i64,
    pub width: i64,
    pub height: i64,
}

/// Thicknesses of one edge ring: left, right, top, bottom.
#[derive(Clone, Copy, PartialEq, Eq, Structural, Debug)]
pub struct EdgeSizes {
    pub left: i64,
    pub right: i64,
    pub top: i64,
    pub bottom: i64,
}

/// A box's geometry: the content rectangle and the padding, border and
/// margin edge sizes around it.
#[derive(Clone, Copy, PartialEq, Eq, Structural, Debug)]
pub struct Dimensions {
    pub content: Rect,
    pub padding: EdgeSizes,
    pub border: EdgeSizes,
    pub margin: EdgeSizes,
}

/// The all-zero rectangle.
pub open spec fn zero_rect() -> Rect {
    Rect { x: 0, y: 0, width: 0, height: 0 }
}

/// Zero thickness on every side.
pub open spec fn zero_edges() -> EdgeSizes {
    EdgeSizes { left: 0, right: 0, top: 0, bottom: 0 }
}

/// The all-zero geometry every fresh box starts from.
pub open spec fn zero_dims() -> Dimensions {
    Dimensions { content: zero_rect(), padding: zero_edges(), border: zero_edges(), margin: zero_edges() }
}

impl Default for Rect {
    /// The all-zero rectangle.
    fn default() -> (r: Rect)
        ensures
            r == zero_rect(),
    {
        Rect { x: 0, y: 0, width: 0, height: 0 }
    }
}

impl Default for EdgeSizes {
    /// Zero thickness on every side.
    fn default() -> (r: EdgeSizes)
        ensures
            r == zero_edges(),
    {
        EdgeSizes { left: 0, right: 0, top: 0, bottom: 0 }
    }
}

impl Default for Dimensions {
    /// The all-zero geometry.
    fn default() -> (r: Dimensions)
        ensures
            r == zero_dims(),
    {
        Dimensions {
            content: Rect { x: 0, y: 0, width: 0, height: 0 },
            padding: EdgeSizes { left: 0, right: 0, top: 0, bottom: 0 },
            border: EdgeSizes { left: 0, right: 0, top: 0, bottom: 0 },
            margin: EdgeSizes { left: 0, right: 0, top: 0, bottom: 0 },
        }
    }
}

impl Rect {
    /// The rectangle grown outward by the given edge sizes.
    pub open spec fn expanded_by_spec(self, edge: EdgeSizes) -> Rect {
        Rect {
            x: sat_sub(self.x, edge.left),
            y: sat_sub(self.y, edge.top),
            width: sat_add(sat_add(self.width, edge.left), edge.right),
            height: sat_add(sat_add(self.height, edge.top), edge.bottom),
        }
    }

    /// The rectangle grown outward by the given edge sizes.
    pub fn expanded_by(self, edge: EdgeSizes) -> (r: Rect)
        ensures
            r == self.expanded_by_spec(edge),
    {
        Rect {
            x: sub_px(self.x, edge.left),
            y: sub_px(self.y, edge.top),
            width: add_px(add_px(self.width, edge.left), edge.right),
            height: add_px(add_px(self.height, edge.top), edge.bottom),
        }
    }
}

impl Dimensions {
    /// The content area plus its padding.
    pub open spec fn padding_box_spec(self) -> Rect {
        self.content.expanded_by_spec(self.padding)
    }

    /// The padding box plus the borders.
    pub open spec fn border_box_spec(self) -> Rect {
        self.padding_box_spec().expanded_by_spec(self.border)
    }

    /// The border box grown by the border edges once more. The
    /// edge-expansion chain deliberately expands by the border a second
    /// time rather than by the margin edges; the tests pin this choice.
    pub open spec fn margin_box_spec(self) -> Rect {
        self.border_box_spec().expanded_by_spec(self.border)
    }

    /// The content area plus its padding.
    pub fn padding_box(self) -> (r: Rect)
        ensures
            r == self.padding_box_spec(),
    {
        self.content.expanded_by(self.padding)
    }

    /// The padding box plus the borders.
    pub fn border_box(self) -> (r: Rect)
        ensures
            r == self.border_box_spec(),
    {
        self.padding_box().expanded_by(self.border)
    }

    /// The border box grown by the border edges once more (see
    /// [`Dimensions::margin_box_spec`]).
    pub fn margin_box(self) -> (r: Rect)
        ensures
            r == self.margin_box_spec(),
    {
        self.border_box().expanded_by(self.border)
    }
}

// ---------------------------------------------------------------------
// The box tree
// ---------------------------------------------------------------------
/// What a box stands for: a block-level styled node, an inline-level
/// styled node, or a generated anonymous block wrapper, which carries no
/// style reference.
#[derive(Clone, Copy)]
pub enum BoxType<'a> {
    BlockNode(&'a StyledNode),
    InlineNode(&'a StyledNode),
    AnonymousBlock,
}

/// A layout box: its geometry, what it stands for, and its children.
pub struct LayoutBox<'a> {
    pub dimensions: Dimensions,
    pub box_type: BoxType<'a>,
    pub children: Vec<LayoutBox<'a>>,
}

/// The failure of a layout pass: the root of the styled tree resolves to
/// `display: none`, so no visible tree can be produced.
#[derive(Clone, Copy, PartialEq, Eq, Structural, Debug)]
pub enum StructuralError {
    RootDisplayNone,
}

/// The mathematical image of a [`BoxType`]: the styled node it stands
/// for, held by value.
pub ghost enum BoxTypeV {
    BlockNode(StyledNode),
    InlineNode(StyledNode),
    AnonymousBlock,
}

/// The mathematical image of a [`LayoutBox`].
#[verifier::ext_equal]
pub ghost struct BoxV {
    pub dimensions: Dimensions,
    pub box_type: BoxTypeV,
    pub children: Seq<BoxV>,
}

/// The mathematical image of a [`BoxType`].
pub open spec fn box_type_view<'a>(t: BoxType<'a>) -> BoxTypeV {
    match t {
        BoxType::BlockNode(n) => BoxTypeV::BlockNode(*n),
        BoxType::InlineNode(n) => BoxTypeV::InlineNode(*n),
        BoxType::AnonymousBlock => BoxTypeV::AnonymousBlock,
    }
}

/// The mathematical image of a [`LayoutBox`].
pub open spec fn box_view<'a>(b: LayoutBox<'a>) -> BoxV
    decreases b, 0int,
{
    BoxV {
        dimensions: b.dimensions,
        box_type: box_type_view(b.box_type),
        children: boxes_view(b.children@),
    }
}

/// The mathematical images of a list of boxes, in order.
pub open spec fn boxes_view<'a>(s: Seq<LayoutBox<'a>>) -> Seq<BoxV>
    decreases s, 1int,
{
    if s.len() == 0 {
        Seq::empty()
    } else {
        boxes_view(s.drop_last()).push(box_view(s.last()))
    }
}

pub proof fn lemma_boxes_view_push<'a>(s: Seq<LayoutBox<'a>>, x: LayoutBox<'a>)
    ensures
        boxes_view(s.push(x)) == boxes_view(s).push(box_view(x)),
{
    assert(s.push(x).drop_last() =~= s);
    assert(s.push(x).last() == x);
}

pub proof fn lemma_boxes_view_len<'a>(s: Seq<LayoutBox<'a>>)
    ensures
        boxes_view(s).len() == s.len(),
    decreases s.len(),
{
    if s.len() > 0 {
        lemma_boxes_view_len(s.drop_last());
    }
}

pub proof fn lemma_boxes_view_index<'a>(s: Seq<LayoutBox<'a>>, k: int)
    requires
        0 <= k < s.len(),
    ensures
        boxes_view(s).len() == s.len(),
        boxes_view(s)[k] == box_view(s[k]),
    decreases s.len(),
{
    lemma_boxes_view_len(s);
    if k < s.len() - 1 {
        lemma_boxes_view_index(s.drop_last(), k);
    }
}

// ---------------------------------------------------------------------
// Building the box tree
// ---------------------------------------------------------------------
/// Where an inline child lands among a parent's children: pushed directly
/// under an inline or anonymous parent; under a block parent, into the
/// trailing anonymous block, opening a fresh one only when the previous
/// child is not already anonymous.
pub open spec fn add_inline_child(kind: BoxTypeV, acc: Seq<BoxV>, c: BoxV) -> Seq<BoxV> {
    match kind {
        BoxTypeV::BlockNode(_) => {
            if acc.len() > 0 && acc.last().box_type is AnonymousBlock {
                acc.update(
                    acc.len() - 1,
                    BoxV { children: acc.last().children.push(c), ..acc.last() },
                )
            } else {
                acc.push(
                    BoxV {
                        dimensions: zero_dims(),
                        box_type: BoxTypeV::AnonymousBlock,
                        children: seq![c],
                    },
                )
            }
        },
        _ => acc.push(c),
    }
}

/// The box-type tag a styled node's own display resolves to.
pub open spec fn root_kind(n: StyledNode) -> BoxTypeV {
    if node_display(n) == Display::Block {
        BoxTypeV::BlockNode(n)
    } else {
        BoxTypeV::InlineNode(n)
    }
}

/// The boxes generated by the first `i` children of a node whose own box
/// carries `kind`: block children become boxes in order, inline children
/// go to the inline container, `display: none` children — and with them
/// their whole subtrees — contribute nothing.
pub open spec fn build_kids(kids: Seq<StyledNode>, kind: BoxTypeV, i: int) -> Seq<BoxV>
    decreases kids, 1int, i,
{
    if i <= 0 || kids.len() < i {
        Seq::empty()
    } else {
        let prev = build_kids(kids, kind, i - 1);
        let d = node_display(kids[i - 1]);
        if d == Display::DisplayNone {
            prev
        } else if d == Display::Block {
            prev.push(build_spec(kids[i - 1]))
        } else {
            add_inline_child(kind, prev, build_spec(kids[i - 1]))
        }
    }
}

/// The box tree a styled node generates: a fresh zero-geometry box of the
/// node's own kind over the boxes its children generate.
pub open spec fn build_spec(n: StyledNode) -> BoxV
    decreases n, 0int, 0int,
{
    BoxV {
        dimensions: zero_dims(),
        box_type: root_kind(n),
        children: build_kids(n.children@, root_kind(n), n.children@.len() as int),
    }
}

fn push_inline_child<'a>(parent: &mut LayoutBox<'a>, cb: LayoutBox<'a>)
    ensures
        final(parent).box_type == old(parent).box_type,
        final(parent).dimensions == old(parent).dimensions,
        boxes_view(final(parent).children@) == add_inline_child(
            box_type_view(old(parent).box_type),
            boxes_view(old(parent).children@),
            box_view(cb),
        ),
{
    let ghost oldkids = parent.children@;
    let is_block = match parent.box_type {
        BoxType::BlockNode(_) => true,
        _ => false,
    };
    if !is_block {
        parent.children.push(cb);
        proof {
            lemma_boxes_view_push(oldkids, cb);
        }
        return ;
    }
    let n = parent.children.len();
    let mut reuse = false;
    if n > 0 {
        reuse = match parent.children[n - 1].box_type {
            BoxType::AnonymousBlock => true,
            _ => false,
        };
        proof {
            lemma_boxes_view_index(oldkids, n - 1 as int);
        }
    }
    proof {
        lemma_boxes_view_len(oldkids);
    }
    if reuse {
        let mut anon = parent.children.pop().unwrap();
        let ghost anon0 = anon;
        anon.children.push(cb);
        proof {
            lemma_boxes_view_push(anon0.children@, cb);
            assert(oldkids.drop_last() =~= parent.children@);
        }
        parent.children.push(anon);
        proof {
            lemma_boxes_view_push(oldkids.drop_last(), anon);
            assert(boxes_view(oldkids).drop_last() =~= boxes_view(oldkids.drop_last()));
            assert(box_view(anon) == (BoxV {
                children: boxes_view(oldkids).last().children.push(box_view(cb)),
                ..boxes_view(oldkids).last()
            }));
            assert(boxes_view(parent.children@) =~= boxes_view(oldkids).update(
                boxes_view(oldkids).len() - 1,
                BoxV {
                    children: boxes_view(oldkids).last().children.push(box_view(cb)),
                    ..boxes_view(oldkids).last()
                },
            ));
        }
    } else {
        let mut anon = LayoutBox {
            dimensions: Dimensions::default(),
            box_type: BoxType::AnonymousBlock,
            children: Vec::new(),
        };
        anon.children.push(cb);
        proof {
            assert(anon.children@ =~= Seq::<LayoutBox<'a>>::empty().push(cb));
            lemma_boxes_view_push(Seq::<LayoutBox<'a>>::empty(), cb);
            assert(boxes_view(anon.children@) =~= seq![box_view(cb)]);
        }
        parent.children.push(anon);
        proof {
            lemma_boxes_view_push(oldkids, anon);
        }
    }
}

fn build_box<'a>(style_node: &'a StyledNode) -> (r: LayoutBox<'a>)
    requires
        node_display(*style_node) != Display::DisplayNone,
    ensures
        box_view(r) == build_spec(*style_node),
    decreases *style_node,
{
    let d = style_node.display();
    let bt = match d {
        Display::Block => BoxType::BlockNode(style_node),
        _ => BoxType::InlineNode(style_node),
    };
    let mut root = LayoutBox {
        dimensions: Dimensions::default(),
        box_type: bt,
        children: Vec::new(),
    };
    let ghost kind = root_kind(*style_node);
    proof {
        assert(boxes_view(root.children@) =~= build_kids(style_node.children@, kind, 0));
    }
    let mut i: usize = 0;
    while i < style_node.children.len()
        invariant
            i <= style_node.children@.len(),
            node_display(*style_node) != Display::DisplayNone,
            root.box_type == bt,
            box_type_view(bt) == kind,
            kind == root_kind(*style_node),
            root.dimensions == zero_dims(),
            boxes_view(root.children@) == build_kids(style_node.children@, kind, i as int),
        decreases style_node.children@.len() - i,
    {
        let child = &style_node.children[i];
        proof {
            assert(*child == style_node.children@[i as int]);
        }
        match child.display() {
            Display::Block => {
                let cb = build_box(child);
                let ghost oldkids = root.children@;
                root.children.push(cb);
                proof {
                    lemma_boxes_view_push(oldkids, cb);
                }
            },
            Display::Inline => {
                let cb = build_box(child);
                push_inline_child(&mut root, cb);
            },
            Display::DisplayNone => {},
        }
        i = i + 1;
    }
    root
}

/// Build the tree of layout boxes for a styled tree, without any layout
/// computation yet. Fails exactly when the root resolves to
/// `display: none`.
pub fn build_layout_tree<'a>(style_node: &'a StyledNode) -> (r: Result<
    LayoutBox<'a>,
    StructuralError,
>)
    ensures
        (match r {
            Ok(b) => node_display(*style_node) != Display::DisplayNone && box_view(b) == build_spec(
                *style_node,
            ),
            Err(e) => node_display(*style_node) == Display::DisplayNone && e
                == StructuralError::RootDisplayNone,
        }),
{
    match style_node.display() {
        Display::DisplayNone => Err(StructuralError::RootDisplayNone),
        _ => Ok(build_box(style_node)),
    }
}

} // verus!

// ---------------------------------------------------------------------
// Block layout
// ---------------------------------------------------------------------

verus! {

/// The keyword `auto`.
pub open spec fn auto_kw() -> ValueV {
    ValueV::Keyword("auto"@)
}

/// The zero pixel length.
pub open spec fn zero_len() -> ValueV {
    ValueV::Length(0, Unit::Px)
}

/// A box's resolved horizontal values: the used content width and the six
/// horizontal edge sizes.
#[verifier::ext_equal]
pub ghost struct ResolvedWidth {
    pub width: i64,
    pub margin_left: i64,
    pub margin_right: i64,
    pub border_left: i64,
    pub border_right: i64,
    pub padding_left: i64,
    pub padding_right: i64,
}

/// Used-value resolution of a block's width against the containing
/// block's content width: the case table over which of `width`,
/// `margin-left` and `margin-right` are `auto`. If the declared width is
/// fixed and the total exceeds the container, auto margins are first
/// forced to zero. The slack (which may be negative) then goes into
/// `margin-right` when nothing is auto (over-constrained), into an auto
/// width (floored at zero, pushing the overshoot into `margin-right`),
/// or to two auto margins — the left takes the half rounded toward zero,
/// the right the remainder, so together they fill the slack exactly. A
/// single auto margin beside a fixed width simply resolves to zero and
/// the slack stays undistributed: the row may underfill the container,
/// a behaviour this engine pins deliberately.
pub open spec fn resolve_width(n: StyledNode, cb_width: i64) -> ResolvedWidth {
    let width0 = match node_value(n, "width"@) {
        Some(v) => v,
        None => auto_kw(),
    };
    let ml0 = node_lookup(n, "margin-left"@, "margin"@, zero_len());
    let mr0 = node_lookup(n, "margin-right"@, "margin"@, zero_len());
    let bl = node_lookup(n, "border-left-width"@, "border-width"@, zero_len()).to_px();
    let br = node_lookup(n, "border-right-width"@, "border-width"@, zero_len()).to_px();
    let pl = node_lookup(n, "padding-left"@, "padding"@, zero_len()).to_px();
    let pr = node_lookup(n, "padding-right"@, "padding"@, zero_len()).to_px();
    let total = sat_add(
        sat_add(
            sat_add(sat_add(sat_add(sat_add(ml0.to_px(), mr0.to_px()), bl), br), pl),
            pr,
        ),
        width0.to_px(),
    );
    let w_auto = width0 == auto_kw();
    let force = !w_auto && total > cb_width;
    let ml_auto = ml0 == auto_kw() && !force;
    let mr_auto = mr0 == auto_kw() && !force;
    let underflow = sat_sub(cb_width, total);
    let base = ResolvedWidth {
        width: width0.to_px(),
        margin_left: ml0.to_px(),
        margin_right: mr0.to_px(),
        border_left: bl,
        border_right: br,
        padding_left: pl,
        padding_right: pr,
    };
    if !w_auto && !ml_auto && !mr_auto {
        // Over-constrained: the slack lands in margin-right.
        ResolvedWidth { margin_right: sat_add(mr0.to_px(), underflow), ..base }
    } else if !w_auto && !ml_auto && mr_auto {
        ResolvedWidth { margin_right: 0, ..base }
    } else if !w_auto && ml_auto && !mr_auto {
        ResolvedWidth { margin_left: 0, ..base }
    } else if w_auto {
        if underflow >= 0 {
            ResolvedWidth { width: underflow, ..base }
        } else {
            ResolvedWidth { width: 0, margin_right: sat_add(mr0.to_px(), underflow), ..base }
        }
    } else {
        ResolvedWidth {
            margin_left: half(underflow),
            margin_right: sat_sub(underflow, half(underflow)),
            ..base
        }
    }
}

/// The dimensions with the resolved horizontal values written in.
pub open spec fn apply_width(d: Dimensions, rw: ResolvedWidth) -> Dimensions {
    Dimensions {
        content: Rect { width: rw.width, ..d.content },
        margin: EdgeSizes { left: rw.margin_left, right: rw.margin_right, ..d.margin },
        border: EdgeSizes { left: rw.border_left, right: rw.border_right, ..d.border },
        padding: EdgeSizes { left: rw.padding_left, right: rw.padding_right, ..d.padding },
    }
}

/// Position resolution: vertical edges take their declared values (zero
/// for auto or unset); the content origin stands inside the containing
/// block's content area, below all content already placed there.
pub open spec fn resolve_position(n: StyledNode, d: Dimensions, cb: Dimensions) -> Dimensions {
    let mt = node_lookup(n, "margin-top"@, "margin"@, zero_len()).to_px();
    let mb = node_lookup(n, "margin-bottom"@, "margin"@, zero_len()).to_px();
    let bt = node_lookup(n, "border-top-width"@, "border-width"@, zero_len()).to_px();
    let bb = node_lookup(n, "border-bottom-width"@, "border-width"@, zero_len()).to_px();
    let pt = node_lookup(n, "padding-top"@, "padding"@, zero_len()).to_px();
    let pb = node_lookup(n, "padding-bottom"@, "padding"@, zero_len()).to_px();
    Dimensions {
        content: Rect {
            x: sat_add(sat_add(sat_add(cb.content.x, d.margin.left), d.border.left), d.padding.left),
            y: sat_add(sat_add(sat_add(sat_add(cb.content.height, cb.content.y), mt), bt), pt),
            ..d.content
        },
        margin: EdgeSizes { top: mt, bottom: mb, ..d.margin },
        border: EdgeSizes { top: bt, bottom: bb, ..d.border },
        padding: EdgeSizes { top: pt, bottom: pb, ..d.padding },
    }
}

/// Height resolution: an explicit pixel `height` overrides the height
/// accumulated from the children; otherwise that accumulated value stays.
pub open spec fn resolve_height(n: StyledNode, d: Dimensions) -> Dimensions {
    match node_value(n, "height"@) {
        Some(ValueV::Length(h, Unit::Px)) => Dimensions {
            content: Rect { height: h, ..d.content },
            ..d
        },
        _ => d,
    }
}

/// Lay out the first `i` children in order, each against the current
/// dimensions, growing the content height by each child's margin-box
/// height so every sibling stacks below the previous ones.
pub open spec fn layout_kids(kids: Seq<BoxV>, d: Dimensions, i: int) -> (Seq<BoxV>, Dimensions)
    decreases kids, 1int, i,
{
    if i <= 0 || kids.len() < i {
        (Seq::empty(), d)
    } else {
        let prev = layout_kids(kids, d, i - 1);
        let c = layout_box_spec(kids[i - 1], prev.1);
        let grown = Dimensions {
            content: Rect {
                height: sat_add(prev.1.content.height, c.dimensions.margin_box_spec().height),
                ..prev.1.content
            },
            ..prev.1
        };
        (prev.0.push(c), grown)
    }
}

/// Lay out one box within its containing block: blocks run the four
/// phases (width, position, children, height); inline and anonymous
/// boxes are layout no-ops.
pub open spec fn layout_box_spec(b: BoxV, cb: Dimensions) -> BoxV
    decreases b, 0int, 0int,
{
    match b.box_type {
        BoxTypeV::BlockNode(n) => {
            let d1 = apply_width(b.dimensions, resolve_width(n, cb.content.width));
            let d2 = resolve_position(n, d1, cb);
            let lk = layout_kids(b.children, d2, b.children.len() as int);
            let d4 = resolve_height(n, lk.1);
            BoxV { dimensions: d4, box_type: b.box_type, children: lk.0 }
        },
        _ => b,
    }
}

/// What a whole layout pass returns: the built box tree of the styled
/// tree, laid out against the containing block with its content height
/// reset to zero.
pub open spec fn layout_tree_spec(n: StyledNode, containing_block: Dimensions) -> BoxV {
    let cb = Dimensions {
        content: Rect { height: 0, ..containing_block.content },
        ..containing_block
    };
    layout_box_spec(build_spec(n), cb)
}

fn is_auto(v: &Value) -> (r: bool)
    ensures
        r == (v@ == auto_kw()),
{
    match v {
        Value::Keyword(s) => crate::style::str_eq(s.as_str(), "auto"),
        _ => false,
    }
}

/// Width resolution (phase one): resolved before any child, because a
/// child's available width depends on it.
fn calculate_block_width(style: &StyledNode, d: Dimensions, containing_block: Dimensions) -> (r:
    Dimensions)
    ensures
        r == apply_width(d, resolve_width(*style, containing_block.content.width)),
{
    let auto = Value::Keyword(String::from_str("auto"));
    let zero = Value::Length(0, Unit::Px);
    proof {
        assert(auto@ == auto_kw());
        assert(zero@ == zero_len());
    }
    let width = match style.value("width") {
        Some(v) => v,
        None => &auto,
    };
    let margin_left = style.lookup("margin-left", "margin", &zero);
    let margin_right = style.lookup("margin-right", "margin", &zero);
    let border_left = style.lookup("border-left-width", "border-width", &zero);
    let border_right = style.lookup("border-right-width", "border-width", &zero);
    let padding_left = style.lookup("padding-left", "padding", &zero);
    let padding_right = style.lookup("padding-right", "padding", &zero);
    let ml_px = margin_left.to_px();
    let mr_px = margin_right.to_px();
    let bl = border_left.to_px();
    let br = border_right.to_px();
    let pl = padding_left.to_px();
    let pr = padding_right.to_px();
    let w_px = width.to_px();
    let total = add_px(
        add_px(add_px(add_px(add_px(add_px(ml_px, mr_px), bl), br), pl), pr),
        w_px,
    );
    let w_auto = is_auto(width);
    let mut ml_auto = is_auto(margin_left);
    let mut mr_auto = is_auto(margin_right);
    if !w_auto && total > containing_block.content.width {
        // An explicit width may not be squeezed: exhaust auto margins first.
        ml_auto = false;
        mr_auto = false;
    }
    let underflow = sub_px(containing_block.content.width, total);
    let mut w = w_px;
    let mut ml = ml_px;
    let mut mr = mr_px;
    if !w_auto && !ml_auto && !mr_auto {
        mr = add_px(mr_px, underflow);
    } else if !w_auto && !ml_auto && mr_auto {
        mr = 0;
    } else if !w_auto && ml_auto && !mr_auto {
        ml = 0;
    } else if w_auto {
        if underflow >= 0 {
            w = underflow;
        } else {
            w = 0;
            mr = add_px(mr_px, underflow);
        }
    } else {
        ml = half_px(underflow);
        mr = sub_px(underflow, ml);
    }
    Dimensions {
        content: Rect { width: w, ..d.content },
        margin: EdgeSizes { left: ml, right: mr, ..d.margin },
        border: EdgeSizes { left: bl, right: br, ..d.border },
        padding: EdgeSizes { left: pl, right: pr, ..d.padding },
    }
}

/// Position resolution (phase two).
fn calculate_block_position(style: &StyledNode, d: Dimensions, containing_block: Dimensions) -> (r:
    Dimensions)
    ensures
        r == resolve_position(*style, d, containing_block),
{
    let zero = Value::Length(0, Unit::Px);
    proof {
        assert(zero@ == zero_len());
    }
    let mt = style.lookup("margin-top", "margin", &zero).to_px();
    let mb = style.lookup("margin-bottom", "margin", &zero).to_px();
    let bt = style.lookup("border-top-width", "border-width", &zero).to_px();
    let bb = style.lookup("border-bottom-width", "border-width", &zero).to_px();
    let pt = style.lookup("padding-top", "padding", &zero).to_px();
    let pb = style.lookup("padding-bottom", "padding", &zero).to_px();
    Dimensions {
        content: Rect {
            x: add_px(add_px(add_px(containing_block.content.x, d.margin.left), d.border.left), d.padding.left),
            y: add_px(
                add_px(add_px(add_px(containing_block.content.height, containing_block.content.y), mt), bt),
                pt,
            ),
            ..d.content
        },
        margin: EdgeSizes { top: mt, bottom: mb, ..d.margin },
        border: EdgeSizes { top: bt, bottom: bb, ..d.border },
        padding: EdgeSizes { top: pt, bottom: pb, ..d.padding },
    }
}

/// Height resolution (phase four): must follow the children, whose
/// accumulated height it may keep.
fn calculate_block_height(style: &StyledNode, d: Dimensions) -> (r: Dimensions)
    ensures
        r == resolve_height(*style, d),
{
    match style.value("height") {
        Some(v) => match v {
            Value::Length(h, Unit::Px) => Dimensions {
                content: Rect { height: *h, ..d.content },
                ..d
            },
            _ => d,
        },
        None => d,
    }
}

impl<'a> LayoutBox<'a> {
    /// The styled node this box stands for. An anonymous block carries no
    /// style reference and must never be asked for one.
    pub fn get_style_node(&self) -> (r: &'a StyledNode)
        requires
            !(box_type_view(self.box_type) is AnonymousBlock),
        ensures
            box_type_view(self.box_type) == BoxTypeV::BlockNode(*r) || box_type_view(self.box_type)
                == BoxTypeV::InlineNode(*r),
    {
        match self.box_type {
            BoxType::BlockNode(n) => n,
            BoxType::InlineNode(n) => n,
            BoxType::AnonymousBlock => vstd::pervasive::unreached(),
        }
    }

    /// Lay out this box and its descendants within the containing block.
    /// Only block boxes compute geometry; inline and anonymous boxes are
    /// layout no-ops.
    #[verifier::loop_isolation(false)]
    pub fn layout(self, containing_block: Dimensions) -> (r: LayoutBox<'a>)
        ensures
            box_view(r) == layout_box_spec(box_view(self), containing_block),
        decreases self,
    {
        let ghost s0 = self;
        let ghost childseq = self.children@;
        let ghost kidviews = boxes_view(self.children@);
        let LayoutBox { dimensions, box_type, children } = self;
        match box_type {
            BoxType::BlockNode(node) => {
                proof {
                    lemma_boxes_view_len(childseq);
                }
                // Phase one and two: width, then position.
                let d1 = calculate_block_width(node, dimensions, containing_block);
                let d2 = calculate_block_position(node, d1, containing_block);
                // Phase three: the children, in order, each below the last.
                let mut rest = children;
                let mut out: Vec<LayoutBox<'a>> = Vec::new();
                let mut d = d2;
                let ghost mut i: int = 0;
                proof {
                    assert(boxes_view(out@) =~= layout_kids(kidviews, d2, 0).0);
                    assert(rest@ =~= childseq.skip(0));
                }
                while rest.len() > 0
                    invariant
                        0 <= i,
                        i + rest@.len() == childseq.len(),
                        kidviews == boxes_view(childseq),
                        kidviews.len() == childseq.len(),
                        rest@ == childseq.skip(i),
                        boxes_view(out@) == layout_kids(kidviews, d2, i).0,
                        d == layout_kids(kidviews, d2, i).1,
                    decreases rest@.len(),
                {
                    let ghost pre = rest@;
                    let c = rest.remove(0);
                    proof {
                        assert(c == childseq.skip(i)[0]);
                        assert(c == childseq[i]);
                        lemma_boxes_view_index(childseq, i);
                        assert forall|k: int| 0 <= k < rest@.len() implies rest@[k]
                            == childseq.skip(i + 1)[k] by {
                            assert(rest@[k] == pre[k + 1]);
                            assert(pre[k + 1] == childseq.skip(i)[k + 1]);
                        }
                        assert(rest@ =~= childseq.skip(i + 1));
                        assert(decreases_to!(s0 => s0.children));
                        assert(decreases_to!(s0.children => s0.children@));
                        assert(s0.children@ == childseq);
                        assert(decreases_to!(childseq => childseq[i]));
                    }
                    let ghost outpre = out@;
                    let ghost dpre = d;
                    let lc = c.layout(d);
                    let mbh = lc.dimensions.margin_box().height;
                    d.content.height = add_px(d.content.height, mbh);
                    out.push(lc);
                    proof {
                        lemma_boxes_view_push(outpre, lc);
                        assert(layout_kids(kidviews, d2, i + 1).0 == layout_kids(
                            kidviews,
                            d2,
                            i,
                        ).0.push(layout_box_spec(kidviews[i], dpre)));
                        i = i + 1;
                    }
                }
                proof {
                    assert(i == childseq.len());
                }
                // Phase four: height, after the children.
                let d4 = calculate_block_height(node, d);
                let result = LayoutBox {
                    dimensions: d4,
                    box_type: BoxType::BlockNode(node),
                    children: out,
                };
                proof {
                    assert(box_view(result) =~= layout_box_spec(box_view(s0), containing_block));
                }
                result
            },
            _ => LayoutBox { dimensions, box_type, children },
        }
    }
}

/// Run a whole layout pass: build the box tree for the styled tree, then
/// lay it out against the containing block, whose content height is
/// reset to zero first (its width the caller pre-sets and this call never
/// changes). Fails exactly when the root resolves to `display: none`.
pub fn layout_tree<'a>(node: &'a StyledNode, containing_block: Dimensions) -> (r: Result<
    LayoutBox<'a>,
    StructuralError,
>)
    ensures
        (match r {
            Ok(b) => node_display(*node) != Display::DisplayNone && box_view(b) == layout_tree_spec(
                *node,
                containing_block,
            ),
            Err(e) => node_display(*node) == Display::DisplayNone && e
                == StructuralError::RootDisplayNone,
        }),
{
    let mut cb = containing_block;
    cb.content.height = 0;
    match build_layout_tree(node) {
        Err(e) => Err(e),
        Ok(root) => Ok(root.layout(cb)),
    }
}

} // verus!

// ---------------------------------------------------------------------
// Laws of the box tree and of layout
// ---------------------------------------------------------------------

verus! {

/// The initial height sat-added with each box's margin-box height, in order.
pub open spec fn stack_heights(laid: Seq<BoxV>, h0: i64) -> i64
    decreases laid.len(),
{
    if laid.len() == 0 {
        h0
    } else {
        sat_add(
            stack_heights(laid.drop_last(), h0),
            laid.last().dimensions.margin_box_spec().height,
        )
    }
}

/// The law of vertical stacking: laying out a block's children changes
/// its dimensions only by growing the content height, and the height
/// grows by exactly the laid children's margin-box heights, in order —
/// so each sibling's offset is the running sum of all earlier siblings'
/// margin-box heights.
pub proof fn lemma_vertical_stacking(kids: Seq<BoxV>, d: Dimensions, i: int)
    requires
        0 <= i <= kids.len(),
    ensures
        layout_kids(kids, d, i).0.len() == i,
        layout_kids(kids, d, i).1.content.x == d.content.x,
        layout_kids(kids, d, i).1.content.y == d.content.y,
        layout_kids(kids, d, i).1.content.width == d.content.width,
        layout_kids(kids, d, i).1.padding == d.padding,
        layout_kids(kids, d, i).1.border == d.border,
        layout_kids(kids, d, i).1.margin == d.margin,
        layout_kids(kids, d, i).1.content.height == stack_heights(
            layout_kids(kids, d, i).0,
            d.content.height,
        ),
    decreases i,
{
    if i > 0 {
        lemma_vertical_stacking(kids, d, i - 1);
        let prev = layout_kids(kids, d, i - 1);
        let c = layout_box_spec(kids[i - 1], prev.1);
        assert(prev.0.push(c).drop_last() =~= prev.0);
    }
}

/// The law of sibling placement: the `j`-th laid child is exactly the
/// layout of the `j`-th box against the dimensions standing after the
/// first `j` children — whose content height, by
/// [`lemma_vertical_stacking`], is the running sum of those children's
/// margin-box heights over the initial height, and whose origin is
/// unchanged. Since a block's position phase sets its content `y` from
/// its containing block's content `y` plus that accumulated height (plus
/// its own top edges), every sibling sits exactly below the content of
/// all earlier siblings.
pub proof fn lemma_sibling_containing_blocks(kids: Seq<BoxV>, d: Dimensions, i: int, j: int)
    requires
        0 <= j < i <= kids.len(),
    ensures
        layout_kids(kids, d, i).0[j] == layout_box_spec(kids[j], layout_kids(kids, d, j).1),
    decreases i,
{
    lemma_vertical_stacking(kids, d, i - 1);
    if j < i - 1 {
        lemma_sibling_containing_blocks(kids, d, i - 1, j);
    }
}

/// The node declares no top margin, border or padding: each resolves to
/// the zero default.
pub open spec fn top_edges_zero(n: StyledNode) -> bool {
    node_lookup(n, "margin-top"@, "margin"@, zero_len()).to_px() == 0 && node_lookup(
        n,
        "border-top-width"@,
        "border-width"@,
        zero_len(),
    ).to_px() == 0 && node_lookup(n, "padding-top"@, "padding"@, zero_len()).to_px() == 0
}

/// The law of adjacent offsets: for two block siblings without top edges,
/// the later one's content `y` is exactly the earlier one's content `y`
/// plus the earlier one's margin-box height, whenever the involved sums
/// stay inside the `i64` range (outside it the saturating chain clamps).
pub proof fn lemma_adjacent_sibling_offset(kids: Seq<BoxV>, d: Dimensions, i: int, j: int)
    requires
        0 <= j,
        j + 1 < i <= kids.len(),
        (kids[j].box_type matches BoxTypeV::BlockNode(n) && top_edges_zero(n)),
        (kids[j + 1].box_type matches BoxTypeV::BlockNode(n) && top_edges_zero(n)),
        ({
            let h = layout_kids(kids, d, j).1.content.height;
            let mb = layout_kids(kids, d, i).0[j].dimensions.margin_box_spec().height;
            let y0 = d.content.y;
            i64::MIN <= h + mb <= i64::MAX && i64::MIN <= h + y0 <= i64::MAX && i64::MIN <= h + mb
                + y0 <= i64::MAX
        }),
    ensures
        layout_kids(kids, d, i).0[j + 1].dimensions.content.y == layout_kids(
            kids,
            d,
            i,
        ).0[j].dimensions.content.y + layout_kids(
            kids,
            d,
            i,
        ).0[j].dimensions.margin_box_spec().height,
{
    lemma_sibling_containing_blocks(kids, d, i, j);
    lemma_sibling_containing_blocks(kids, d, i, j + 1);
    lemma_vertical_stacking(kids, d, j);
    lemma_vertical_stacking(kids, d, j + 1);
    lemma_vertical_stacking(kids, d, i);
    let cbj = layout_kids(kids, d, j).1;
    let cbk = layout_kids(kids, d, j + 1).1;
    let cj = layout_kids(kids, d, i).0[j];
    let ck = layout_kids(kids, d, i).0[j + 1];
    // The containing block of the later sibling carries the earlier one's
    // margin-box height on top of the accumulated height.
    assert(cbk.content.height == sat_add(cbj.content.height, cj.dimensions.margin_box_spec().height));
    // A block child's own children phase moves only its content height,
    // so the `y` the position phase sets is the `y` it keeps.
    if let BoxTypeV::BlockNode(nj) = kids[j].box_type {
        let d2 = resolve_position(nj, apply_width(kids[j].dimensions, resolve_width(nj, cbj.content.width)), cbj);
        lemma_vertical_stacking(kids[j].children, d2, kids[j].children.len() as int);
    }
    if let BoxTypeV::BlockNode(nk) = kids[j + 1].box_type {
        let d2 = resolve_position(nk, apply_width(kids[j + 1].dimensions, resolve_width(nk, cbk.content.width)), cbk);
        lemma_vertical_stacking(kids[j + 1].children, d2, kids[j + 1].children.len() as int);
    }
}

/// A layout pass is a pure function of the styled tree and the containing
/// block: re-running it on unchanged inputs yields the identical box tree,
/// dimensions included.
pub proof fn lemma_layout_pure(n: StyledNode, containing_block: Dimensions, b1: BoxV, b2: BoxV)
    requires
        b1 == layout_tree_spec(n, containing_block),
        b2 == layout_tree_spec(n, containing_block),
    ensures
        b1 == b2,
{
}

/// The box children of a block box are legal: none is inline-level, and
/// no two anonymous wrappers stand side by side.
pub open spec fn legal_children(b: BoxV) -> bool {
    b.box_type is BlockNode ==> ((forall|j: int|
        0 <= j < b.children.len() ==> !((#[trigger] b.children[j]).box_type is InlineNode)) && (
    forall|j: int|
        0 <= j && j + 1 < b.children.len() ==> !((#[trigger] b.children[j]).box_type
            is AnonymousBlock && b.children[j + 1].box_type is AnonymousBlock)))
}

/// Every box of the tree has legal children.
pub open spec fn legal_tree(b: BoxV) -> bool
    decreases b,
{
    legal_children(b) && (forall|j: int|
        0 <= j < b.children.len() ==> legal_tree(#[trigger] b.children[j]))
}

proof fn lemma_build_kids_legal(kids: Seq<StyledNode>, kind: BoxTypeV, i: int)
    ensures
        forall|j: int|
            0 <= j < build_kids(kids, kind, i).len() ==> legal_tree(
                #[trigger] build_kids(kids, kind, i)[j],
            ),
        forall|j: int|
            0 <= j < build_kids(kids, kind, i).len() ==> !((#[trigger] build_kids(kids, kind, i)[j]).box_type
                is InlineNode) || !(kind is BlockNode),
        forall|j: int|
            0 <= j && j + 1 < build_kids(kids, kind, i).len() ==> !((#[trigger] build_kids(
                kids,
                kind,
                i,
            )[j]).box_type is AnonymousBlock && build_kids(kids, kind, i)[j + 1].box_type
                is AnonymousBlock),
    decreases kids, 1int, i,
{
    if i <= 0 || kids.len() < i {
    } else {
        lemma_build_kids_legal(kids, kind, i - 1);
        let prev = build_kids(kids, kind, i - 1);
        let d = node_display(kids[i - 1]);
        if d == Display::DisplayNone {
        } else {
            lemma_build_legal(kids[i - 1]);
            let c = build_spec(kids[i - 1]);
            if d == Display::Block {
                assert(c.box_type is BlockNode);
                assert forall|j: int| 0 <= j < prev.push(c).len() implies legal_tree(
                    #[trigger] prev.push(c)[j],
                ) by {
                    if j < prev.len() {
                        assert(legal_tree(prev[j]));
                    }
                }
            } else {
                assert(c.box_type is InlineNode);
                match kind {
                    BoxTypeV::BlockNode(_) => {
                        if prev.len() > 0 && prev.last().box_type is AnonymousBlock {
                            let old_last = prev.last();
                            let new_last = BoxV {
                                children: old_last.children.push(c),
                                ..old_last
                            };
                            let out = prev.update(prev.len() - 1, new_last);
                            assert(legal_tree(old_last));
                            assert(legal_tree(new_last)) by {
                                assert forall|j: int|
                                    0 <= j < new_last.children.len() implies legal_tree(
                                    #[trigger] new_last.children[j],
                                ) by {
                                    if j < old_last.children.len() {
                                        assert(legal_tree(old_last.children[j]));
                                    }
                                }
                            }
                            assert forall|j: int| 0 <= j < out.len() implies legal_tree(
                                #[trigger] out[j],
                            ) by {
                                if j < prev.len() - 1 {
                                    assert(legal_tree(prev[j]));
                                }
                            }
                        } else {
                            let anon = BoxV {
                                dimensions: zero_dims(),
                                box_type: BoxTypeV::AnonymousBlock,
                                children: seq![c],
                            };
                            assert(legal_tree(anon)) by {
                                assert(forall|j: int|
                                    0 <= j < anon.children.len() ==> anon.children[j] == c);
                            }
                            assert forall|j: int| 0 <= j < prev.push(anon).len() implies legal_tree(
                                #[trigger] prev.push(anon)[j],
                            ) by {
                                if j < prev.len() {
                                    assert(legal_tree(prev[j]));
                                }
                            }
                        }
                    },
                    _ => {
                        assert forall|j: int| 0 <= j < prev.push(c).len() implies legal_tree(
                            #[trigger] prev.push(c)[j],
                        ) by {
                            if j < prev.len() {
                                assert(legal_tree(prev[j]));
                            }
                        }
                    },
                }
            }
        }
    }
}

/// The law of anonymous-block grouping: a built box tree never holds an
/// inline box as the direct child of a block box, and a fresh anonymous
/// wrapper is opened only when the previous child is not already one —
/// so consecutive inline children share a single anonymous block.
pub proof fn lemma_build_legal(n: StyledNode)
    ensures
        legal_tree(build_spec(n)),
    decreases n, 2int, 0int,
{
    lemma_build_kids_legal(n.children@, root_kind(n), n.children@.len() as int);
}

proof fn lemma_prune_before(s: Seq<StyledNode>, kind: BoxTypeV, k: int, i: int)
    requires
        0 <= k < s.len(),
        0 <= i <= k,
    ensures
        build_kids(s, kind, i) == build_kids(s.remove(k), kind, i),
    decreases i,
{
    if i > 0 {
        lemma_prune_before(s, kind, k, i - 1);
        assert(s.remove(k)[i - 1] == s[i - 1]);
    }
}

proof fn lemma_prune_after(s: Seq<StyledNode>, kind: BoxTypeV, k: int, i: int)
    requires
        0 <= k < s.len(),
        node_display(s[k]) == Display::DisplayNone,
        k < i <= s.len(),
    ensures
        build_kids(s, kind, i) == build_kids(s.remove(k), kind, i - 1),
    decreases i,
{
    if i == k + 1 {
        lemma_prune_before(s, kind, k, k);
    } else {
        lemma_prune_after(s, kind, k, i - 1);
        assert(s.remove(k)[i - 2] == s[i - 1]);
    }
}

/// The law of `display: none` pruning: a child that resolves to
/// `display: none` contributes no box at all — the parent's box children
/// equal those built with that child, descendants and all, taken out.
pub proof fn lemma_display_none_pruned(n: StyledNode, k: int)
    requires
        0 <= k < n.children@.len(),
        node_display(n.children@[k]) == Display::DisplayNone,
    ensures
        build_spec(n).children == build_kids(
            n.children@.remove(k),
            root_kind(n),
            n.children@.len() - 1,
        ),
{
    lemma_prune_after(n.children@, root_kind(n), k, n.children@.len() as int);
}

} // verus!
