//! How boxes are sized: replaced elements, inline and multi-column content, and what stands
//! around the block and flex algorithms. Lengths are written in px.

use oxidepage_layout::dispatch::{
    algorithm, begin_block, begin_flex, block_item_overflow, end_block, end_flex,
    measure_replaced, Algorithm,
};
use oxidepage_layout::inline_layout::{
    atomic_layout, atomic_room, empty_size, inline_frame, inline_output, inline_space,
    inline_styled_size, known_size, line_width, used_text_indent, PlacedAtomic,
};
use oxidepage_layout::multicol::{
    finish_multicol, measure_multicol_intrinsic, multicol_determined_size, multicol_frame,
    place_columns, plan_multicol, used_gap,
};
use oxidepage_layout::numbers::{parse_i32, parse_u16};
use oxidepage_layout::replaced::{checkbox_size, replaced_measure_function, text_control_size};
use oxidepage_layout::sizing::{MaybeSize, SizingMode, Space, Spaces, WideSize};
use oxidepage_layout::style::{
    anonymous_box_style, box_style_for, resolve_line_height, taffy_style_for, ComputedStyle,
    LineHeight,
    PhysicalSide, SizeKeyword,
};
use oxidepage_layout::assemble::find_values;
use oxidepage_layout::construct::StyleOf;
use oxidepage_layout::document::Styled;
use oxidepage_layout::dom::DomTree;
use oxidepage_layout::grid::GridStyle;
use oxidepage_layout::table::cap_content_size;
use oxidepage_layout::text::{capitalize_text, transform_text};
use oxidepage_layout::style::TextCase;
use oxidepage_layout::tree::{
    AlignKeyword, Alignment, BoxId, BoxKind, BoxSizing, BoxStyle, ColumnGap, Direction, Display,
    FlexDirection, Float, IfcData, Layout, LayoutBox, LayoutTree, MulticolConfig, Overflow,
    Placement, PseudoBox, ReplacedContent, ReplacedContext, Viewport,
};
use oxidepage_layout::units::{Dimension, Edges, Offset, Rect, Size};

fn px(v: i32) -> Dimension {
    Dimension::Length(v * 64)
}

fn percent(v: i32) -> Dimension {
    Dimension::Percent(v * 10_000)
}

fn wide(v: i64) -> Option<i64> {
    Some(v * 64)
}

const OPEN: MaybeSize = MaybeSize { width: None, height: None };

fn sized(width: i64, height: i64) -> MaybeSize {
    MaybeSize { width: wide(width), height: wide(height) }
}

fn spaces(width: Space, height: Space) -> Spaces {
    Spaces { width, height }
}

fn definite(v: i64) -> Space {
    Space::Definite(v * 64)
}

fn size(width: i32, height: i32) -> Size {
    Size { width: width * 64, height: height * 64 }
}

fn around(v: i32) -> oxidepage_layout::units::EdgeDimensions {
    oxidepage_layout::units::EdgeDimensions { left: px(v), right: px(v), top: px(v), bottom: px(v) }
}

/// A tree of a root with children of these styles.
fn tree_of(root: BoxStyle, children: &[BoxStyle]) -> LayoutTree {
    let mut tree = LayoutTree::new(Viewport { width: 800 * 64, height: 600 * 64 });
    let top = tree.push_box(LayoutBox::new(BoxKind::Block, None, root));
    for style in children {
        let child = tree.push_box(LayoutBox::new(BoxKind::Block, None, *style));
        tree.append_child(top, child);
    }
    tree.set_root(Some(top));
    tree
}

// Replaced elements.

fn image(natural: Size, attr_width: Option<i32>, attr_height: Option<i32>) -> ReplacedContext {
    ReplacedContext {
        inherent_size: natural,
        attr_width: attr_width.map(|v| v * 64),
        attr_height: attr_height.map(|v| v * 64),
        image: None,
    }
}

#[test]
fn img_with_attr_ratio_and_max_width_keeps_finite_height() {
    let mut style = BoxStyle::initial();
    style.max_size.width = percent(100);
    let r = replaced_measure_function(
        OPEN,
        MaybeSize { width: wide(300), height: None },
        spaces(definite(300), Space::MaxContent),
        &image(size(0, 0), Some(800), Some(600)),
        &style,
    );
    assert_eq!(r, size(300, 225));
}

#[test]
fn img_without_any_ratio_source_is_zero_not_nan() {
    let mut style = BoxStyle::initial();
    style.max_size.width = percent(100);
    let r = replaced_measure_function(
        OPEN,
        MaybeSize { width: wide(300), height: None },
        spaces(definite(300), Space::MaxContent),
        &image(size(0, 0), None, None),
        &style,
    );
    assert_eq!(r, size(0, 0));
}

#[test]
fn percentage_sized_image_in_auto_height_parent_uses_its_intrinsic_size() {
    let mut style = BoxStyle::initial();
    style.size.width = percent(100);
    style.size.height = percent(100);
    style.max_size.width = percent(100);
    let r = replaced_measure_function(
        OPEN,
        MaybeSize { width: wide(375), height: None },
        spaces(definite(375), Space::MaxContent),
        &image(size(750, 1050), None, None),
        &style,
    );
    assert_eq!(r, size(375, 525));
}

#[test]
fn a_block_level_image_is_not_stretched() {
    let mut tree = tree_of(BoxStyle::initial(), &[BoxStyle::initial()]);
    let child = BoxId(1);
    tree.box_mut(child).kind = BoxKind::Replaced;
    tree.box_mut(child).replaced = Some(ReplacedContent::Image(image(size(40, 30), None, None)));
    assert_eq!(algorithm(tree.box_(child)), Algorithm::Image);
    let stretched = MaybeSize { width: wide(300), height: None };
    let space = spaces(definite(300), Space::MaxContent);
    assert_eq!(measure_replaced(&tree, child, stretched, sized(300, 300), space), size(40, 30));
    // An item of a flex container keeps the size that it was given.
    tree.box_mut(BoxId(0)).style.display = Display::Flex;
    assert_eq!(
        measure_replaced(&tree, child, stretched, sized(300, 300), space),
        size(300, 225)
    );
}

#[test]
fn replaced_min_content_contribution_zeroes_percentage_part() {
    let mut style = BoxStyle::initial();
    style.size.width = Dimension::Calc { length: 140 * 64, percent: 1_000_000 };
    let r = text_control_size(1_000_000, None, false, 20 * 64, 20 * 64, &style, Space::MinContent);
    assert_eq!(r.width, 140 * 64);
    // Without a width of its own, a text control is 300px, or what there is.
    let auto = BoxStyle::initial();
    let of = |space: Space| text_control_size(1_000_000, None, false, 64, 64, &auto, space).width;
    assert_eq!(of(Space::MaxContent), 300 * 64);
    assert_eq!(of(Space::MinContent), 0);
    assert_eq!(of(definite(120)), 120 * 64);
}

#[test]
fn text_areas_by_rows_and_columns() {
    let auto = BoxStyle::initial();
    let r = text_control_size(2_000_000, Some(10_000_000), true, 10 * 64, 10 * 64, &auto, Space::MaxContent);
    assert_eq!(r, size(60, 20));
    let r = text_control_size(3_000_000, None, true, 10 * 64, 10 * 64, &auto, Space::MinContent);
    assert_eq!(r, size(300, 30));
    // Two and a half rows of ten px; seven and a half columns of six.
    let (rows, cols) = (2_500_000, Some(7_500_000));
    let r = text_control_size(rows, cols, true, 10 * 64, 10 * 64, &auto, Space::MaxContent);
    assert_eq!(r, size(45, 25));
}

#[test]
fn checkboxes_are_square() {
    let mut style = BoxStyle::initial();
    style.size.width = px(20);
    style.size.height = px(13);
    assert_eq!(checkbox_size(&style, OPEN, Space::MaxContent), size(13, 13));
    style.size.width = percent(50);
    assert_eq!(checkbox_size(&style, sized(100, 100), Space::MinContent), size(0, 0));
}

// Block containers.

#[test]
fn auto_height_min_height_floor_accounts_for_content_box_padding() {
    let mut style = BoxStyle::initial();
    style.min_size.height = px(100);
    style.padding = around(30);
    let mut tree = tree_of(style, &[]);
    let root = BoxId(0);
    let hidden = begin_block(&mut tree, root, SizingMode::InherentSize);
    assert_eq!(tree.box_(root).style.min_size.height, Dimension::Auto);
    let r = end_block(&mut tree, root, hidden, sized(800, 600), true, size(800, 60));
    assert_eq!(r, size(800, 160));
    assert_eq!(tree.box_(root).style, style);
}

#[test]
fn auto_height_min_height_floor_border_box_is_not_double_counted() {
    let mut style = BoxStyle::initial();
    style.box_sizing = BoxSizing::BorderBox;
    style.min_size.height = px(100);
    style.padding = around(30);
    let mut tree = tree_of(style, &[]);
    let hidden = begin_block(&mut tree, BoxId(0), SizingMode::InherentSize);
    let r = end_block(&mut tree, BoxId(0), hidden, sized(800, 600), true, size(800, 60));
    assert_eq!(r, size(800, 100));
}

#[test]
fn min_height_is_not_a_percentage_basis_for_children() {
    let mut style = BoxStyle::initial();
    style.min_size.height = px(480);
    let mut tree = tree_of(style, &[]);
    // The algorithm sees neither a height nor a minimum, so a percentage has no basis.
    let hidden = begin_block(&mut tree, BoxId(0), SizingMode::InherentSize);
    let seen = tree.box_(BoxId(0)).style;
    assert_eq!((seen.size.height, seen.min_size.height), (Dimension::Auto, Dimension::Auto));
    let r = end_block(&mut tree, BoxId(0), hidden, OPEN, true, size(800, 900));
    assert_eq!(r.height, 900 * 64);
}

#[test]
fn flex_item_own_height_does_not_inflate_its_content_size_suggestion() {
    let mut style = BoxStyle::initial();
    style.size.height = px(200);
    let mut tree = tree_of(style, &[]);
    let hidden = begin_block(&mut tree, BoxId(0), SizingMode::ContentSize);
    assert_eq!(tree.box_(BoxId(0)).style.size.height, Dimension::Auto);
    end_block(&mut tree, BoxId(0), hidden, OPEN, false, size(100, 0));
    assert_eq!(tree.box_(BoxId(0)).style.size.height, px(200));
    // Where the style's sizes count, nothing is hidden.
    let hidden = begin_block(&mut tree, BoxId(0), SizingMode::InherentSize);
    assert_eq!((hidden.min, hidden.height), (None, None));
}

#[test]
fn clearfix_bfc_includes_bottom_padding_after_floats() {
    let mut style = BoxStyle::initial();
    style.padding.bottom = px(30);
    let mut float = BoxStyle::initial();
    float.float = Float::Left;
    let mut tree = tree_of(style, &[float, float]);
    tree.box_mut(BoxId(0)).force_bfc = true;
    tree.box_mut(BoxId(1)).unrounded_layout.size = size(100, 150);
    tree.box_mut(BoxId(2)).unrounded_layout.size = size(100, 32);
    let hidden = begin_block(&mut tree, BoxId(0), SizingMode::InherentSize);
    let r = end_block(&mut tree, BoxId(0), hidden, sized(800, 600), true, size(300, 150));
    assert_eq!(r.height, 180 * 64, "150px float + 30px padding");
    assert_eq!(block_item_overflow(tree.box_(BoxId(0))), (Overflow::Hidden, Overflow::Hidden));
    assert_eq!(block_item_overflow(tree.box_(BoxId(1))), (Overflow::Visible, Overflow::Visible));
}

// Flex containers.

fn flex_column(height: Dimension, basis: Dimension) -> LayoutTree {
    let mut style = BoxStyle::initial();
    style.display = Display::Flex;
    style.flex_direction = FlexDirection::Column;
    style.size.height = height;
    let mut item = BoxStyle::initial();
    item.flex_grow = 500_000;
    item.flex_basis = basis;
    tree_of(style, &[item, BoxStyle::initial()])
}

#[test]
fn definite_flex_basis_caps_the_containers_intrinsic_main_size() {
    let mut tree = flex_column(Dimension::Auto, px(0));
    let space = spaces(definite(800), Space::MaxContent);
    let hidden = begin_flex(&mut tree, BoxId(0), OPEN, space);
    assert_eq!(hidden, vec![(BoxId(1), 500_000)]);
    assert_eq!(tree.box_(BoxId(1)).style.flex_grow, 0);
    end_flex(&mut tree, &hidden);
    assert_eq!(tree.box_(BoxId(1)).style.flex_grow, 500_000);
}

#[test]
fn definite_flex_basis_still_grows_into_a_sized_container() {
    let mut tree = flex_column(px(40), px(30));
    let space = spaces(definite(800), Space::MaxContent);
    assert!(begin_flex(&mut tree, BoxId(0), OPEN, space).is_empty());
    assert_eq!(tree.box_(BoxId(1)).style.flex_grow, 500_000);
    // Nor is growth hidden where the algorithm is handed a size, or has a basis to find.
    let mut tree = flex_column(Dimension::Auto, px(30));
    assert!(begin_flex(&mut tree, BoxId(0), sized(100, 40), space).is_empty());
    let mut tree = flex_column(Dimension::Auto, Dimension::Auto);
    assert!(begin_flex(&mut tree, BoxId(0), OPEN, space).is_empty());
}

#[test]
fn algorithms_by_kind_and_display() {
    let of = |kind: BoxKind, display: Display, text: bool| {
        let mut style = BoxStyle::initial();
        style.display = display;
        let mut b = LayoutBox::new(kind, None, style);
        if text {
            b.ifc = Some(IfcData {
                lines: Vec::new(),
                text: String::new(),
                contributors: Vec::new(),
            });
        }
        algorithm(&b)
    };
    assert_eq!(of(BoxKind::Block, Display::Block, false), Algorithm::Block);
    assert_eq!(of(BoxKind::Block, Display::Flex, true), Algorithm::Flex);
    assert_eq!(of(BoxKind::Block, Display::Grid, false), Algorithm::Grid);
    assert_eq!(of(BoxKind::Block, Display::Hidden, false), Algorithm::Hidden);
    assert_eq!(of(BoxKind::InlineRoot, Display::Block, true), Algorithm::Inline);
    assert_eq!(of(BoxKind::InlineRoot, Display::Block, false), Algorithm::Block);
    assert_eq!(of(BoxKind::TableRoot, Display::Grid, false), Algorithm::Table);
    assert_eq!(of(BoxKind::MulticolRoot, Display::Block, false), Algorithm::Multicol);
    assert_eq!(cap_content_size(size(300, 10), size(200, 50)), size(200, 10));
}

// Inline content.

#[test]
fn ahem_text_measures_exactly() {
    let mut style = BoxStyle::initial();
    style.size.width = px(200);
    let parent = sized(800, 600);
    let known = inline_styled_size(&style, OPEN, parent, SizingMode::InherentSize);
    assert_eq!(known, MaybeSize { width: wide(200), height: None });
    let f = inline_frame(&style, known, parent, SizingMode::InherentSize);
    assert_eq!(line_width(&f, known.width, definite(800), 100 * 64, 100 * 64), 200 * 64);
    let lines = WideSize { width: 200 * 64, height: 20 * 64 };
    let out = inline_output(&f, known, lines, Some(16 * 64));
    assert_eq!(out.size, WideSize { width: 200 * 64, height: 20 * 64 });
    assert_eq!(out.baseline, Some(16 * 64));
    assert!(!out.collapses);
}

#[test]
fn shrink_to_fit_inline_content() {
    let style = BoxStyle::initial();
    let f = inline_frame(&style, OPEN, sized(800, 600), SizingMode::InherentSize);
    let width = line_width(&f, None, Space::MaxContent, 48 * 64, 48 * 64);
    assert_eq!(width, 48 * 64);
    let out = inline_output(&f, OPEN, WideSize { width, height: 16 * 64 }, None);
    assert_eq!(out.size, WideSize { width: 48 * 64, height: 16 * 64 });
    // Fractions are rounded up to whole px, and there is never less than a word needs.
    assert_eq!(line_width(&f, None, Space::MinContent, 65, 500), 128);
    assert_eq!(line_width(&f, None, definite(1), 48 * 64, 96 * 64), 48 * 64);
    assert_eq!(line_width(&f, None, definite(60), 48 * 64, 96 * 64), 60 * 64);
}

#[test]
fn atomic_inline_block_participates_in_line_layout() {
    let container = BoxStyle::initial();
    let f = inline_frame(&container, OPEN, sized(800, 600), SizingMode::InherentSize);
    let style = BoxStyle::initial();
    let parent = MaybeSize { width: wide(200), height: None };
    let room = atomic_room(&style, parent, size(30, 30));
    assert_eq!(room, WideSize { width: 30 * 64, height: 30 * 64 });
    let at = PlacedAtomic { x: 20 * 64, y: 0, width: 30 * 64, height: 30 * 64 };
    let content = WideSize { width: 200 * 64, height: 30 * 64 };
    let layout = atomic_layout(&f, &style, parent, content, at, size(0, 0), Layout::zero());
    assert_eq!(layout.size, size(30, 30));
    assert_eq!(layout.location, Offset { x: 20 * 64, y: 0 });
}

#[test]
fn atomic_boxes_with_margins_and_insets() {
    let mut container = BoxStyle::initial();
    container.padding = around(5);
    let f = inline_frame(&container, OPEN, sized(800, 600), SizingMode::InherentSize);
    let mut style = BoxStyle::initial();
    style.margin = around(3);
    let parent = sized(200, 100);
    assert_eq!(
        atomic_room(&style, parent, size(30, 10)),
        WideSize { width: 36 * 64, height: 16 * 64 }
    );
    let at = PlacedAtomic { x: 20 * 64, y: 4 * 64, width: 36 * 64, height: 16 * 64 };
    let content = WideSize { width: 200 * 64, height: 100 * 64 };
    let layout = atomic_layout(&f, &style, parent, content, at, size(0, 0), Layout::zero());
    assert_eq!(layout.size, size(30, 10));
    assert_eq!(layout.location, Offset { x: 28 * 64, y: 12 * 64 });
    // One that is absolutely positioned takes no room and goes by its insets.
    style.placement = Placement::OutOfFlow;
    assert_eq!(atomic_room(&style, parent, size(30, 10)), WideSize { width: 0, height: 0 });
    style.inset.right = px(10);
    style.inset.top = px(7);
    let layout = atomic_layout(&f, &style, parent, content, at, size(30, 10), Layout::zero());
    assert_eq!(layout.location, Offset { x: (200 - 10 - 30 - 3) * 64, y: (7 + 3) * 64 });
    assert_eq!(layout.size, size(30, 10));
}

#[test]
fn align_items_baseline_scroll_container_uses_bottom_margin_edge() {
    // A scroll container gives no baseline of its own, so its bottom edge stands for it.
    let mut style = BoxStyle::initial();
    style.size.height = px(50);
    style.overflow_y = Overflow::Scroll;
    let known = MaybeSize { width: wide(80), height: wide(50) };
    let f = inline_frame(&style, known, sized(800, 600), SizingMode::InherentSize);
    let lines = WideSize { width: 80 * 64, height: 20 * 64 };
    let scroller = inline_output(&f, known, lines, Some(16 * 64));
    assert_eq!(scroller.baseline, None);
    let plain_style = BoxStyle::initial();
    let f = inline_frame(&plain_style, OPEN, sized(800, 600), SizingMode::InherentSize);
    let plain = inline_output(&f, OPEN, lines, Some(16 * 64));
    assert_eq!(scroller.size.height - plain.baseline.unwrap(), 34 * 64);
}

#[test]
fn empty_contexts_collapse() {
    let style = BoxStyle::initial();
    let f = inline_frame(&style, OPEN, sized(800, 600), SizingMode::InherentSize);
    assert_eq!(empty_size(&f, false, false), Some(WideSize { width: 0, height: 0 }));
    assert_eq!(empty_size(&f, true, false), None);
    assert_eq!(empty_size(&f, false, true), None);
    assert!(inline_output(&f, OPEN, WideSize { width: 0, height: 0 }, None).collapses);
    let mut padded = style;
    padded.padding.top = px(1);
    let f = inline_frame(&padded, OPEN, sized(800, 600), SizingMode::InherentSize);
    assert_eq!(empty_size(&f, false, false), None);
}

#[test]
fn space_for_inline_content() {
    let mut style = BoxStyle::initial();
    style.margin = around(10);
    style.padding = around(5);
    style.max_size.width = px(100);
    let f = inline_frame(&style, OPEN, sized(800, 600), SizingMode::InherentSize);
    let space = inline_space(&f, OPEN, spaces(definite(200), Space::MaxContent));
    // 200 less the margins, no more than 110 with padding, less the padding.
    assert_eq!(space, spaces(definite(100), Space::MaxContent));
    assert_eq!(used_text_indent(None, percent(10), wide(50)), 5 * 64);
    assert_eq!(used_text_indent(Some(PseudoBox::Before), percent(10), wide(50)), 5 * 64);
    assert_eq!(used_text_indent(None, percent(10), None), 0);
    // A marker is not indented.
    assert_eq!(used_text_indent(Some(PseudoBox::Marker), percent(10), wide(50)), 0);
    assert_eq!(used_text_indent(Some(PseudoBox::Marker), px(7), None), 0);
    // Content is left alone where only a size is asked for, and it is known.
    let known = sized(10, 20);
    assert_eq!(known_size(known, true), Some(WideSize { width: 640, height: 1280 }));
    assert_eq!(known_size(known, false), None);
    assert_eq!(known_size(MaybeSize { width: None, ..known }, true), None);
}

// Columns.

fn config(count: Option<u32>, width: Option<i32>, gap: ColumnGap) -> MulticolConfig {
    MulticolConfig { count, width: width.map(|v| v * 64), gap }
}

fn no_gap() -> ColumnGap {
    ColumnGap::Length(px(0))
}

/// The used width, gap and columns of a container of the given style over a flow with break
/// opportunities at these positions, and its height.
fn columns_of(
    style: &BoxStyle,
    config: &MulticolConfig,
    breaks: &[i64],
) -> (i32, i32, Vec<(i64, i64, i64)>, i32) {
    let parent = sized(800, 600);
    let m = multicol_frame(style, OPEN, parent, SizingMode::InherentSize);
    let plan = plan_multicol(&m, config, 20 * 64, OPEN, definite(800), 0);
    let raw: Vec<i64> = breaks.iter().map(|v| v * 64).collect();
    let out = finish_multicol(&m, &plan, &raw, Some(16 * 64));
    let columns = place_columns(&raw, &out.boundaries, plan.width, plan.gap)
        .into_iter()
        .map(|c| (c.x / 64, c.start / 64, c.end / 64))
        .collect();
    assert_eq!(out.baseline, Some(16 * 64));
    (plan.width / 64, plan.gap / 64, columns, out.size.height / 64)
}

fn wide_style(width: i32) -> BoxStyle {
    let mut style = BoxStyle::initial();
    style.size.width = px(width);
    style
}

#[test]
fn column_count_splits_the_content_width() {
    let (width, gap, columns, _) =
        columns_of(&wide_style(300), &config(Some(3), None, no_gap()), &[0, 20, 40, 60]);
    assert_eq!((width, gap), (100, 0));
    assert_eq!(columns.iter().map(|c| c.0).collect::<Vec<_>>(), [0, 100, 200]);
}

#[test]
fn column_width_derives_the_used_count() {
    let (width, gap, columns, _) = columns_of(
        &wide_style(320),
        &config(None, Some(100), ColumnGap::Length(px(20))),
        &[0, 20, 40],
    );
    assert_eq!((width, gap), (150, 20));
    assert_eq!(columns.len(), 2);
    assert_eq!(columns[1].0, 170);
}

#[test]
fn column_gap_normal_is_one_em() {
    let (width, gap, _, _) =
        columns_of(&wide_style(220), &config(Some(2), None, ColumnGap::Normal), &[0, 20, 40, 60]);
    assert_eq!(gap, 20);
    assert_eq!(width, 100);
    assert_eq!(used_gap(&config(None, None, ColumnGap::Length(percent(10))), 100 * 64, 64), 640);
}

#[test]
fn text_balances_into_equal_columns() {
    let (width, _, columns, height) =
        columns_of(&wide_style(200), &config(Some(2), None, no_gap()), &[0, 20, 40, 60, 80]);
    assert_eq!(width, 100);
    assert_eq!(columns, [(0, 0, 40), (100, 40, 80)]);
    assert_eq!(height, 40);
}

#[test]
fn unbreakable_content_floors_the_column_height() {
    let (_, _, columns, height) =
        columns_of(&wide_style(200), &config(Some(2), None, no_gap()), &[0, 100]);
    assert_eq!(columns, [(0, 0, 100)]);
    assert_eq!(height, 100);
}

#[test]
fn a_definite_height_fills_instead_of_balancing() {
    let mut style = wide_style(200);
    style.size.height = px(40);
    let (_, _, columns, height) =
        columns_of(&style, &config(Some(3), None, no_gap()), &[0, 20, 40, 60, 80]);
    assert_eq!(columns.len(), 2, "two full columns, the third unused");
    assert_eq!((columns[0].1, columns[0].2), (0, 40));
    assert_eq!((columns[1].1, columns[1].2), (40, 80));
    assert_eq!(height, 40);
}

#[test]
fn a_container_of_known_size_needs_no_columns() {
    let mut style = wide_style(200);
    style.size.height = px(40);
    let m = multicol_frame(&style, OPEN, sized(800, 600), SizingMode::InherentSize);
    assert_eq!(
        multicol_determined_size(&m, OPEN),
        Some(WideSize { width: 200 * 64, height: 40 * 64 })
    );
    let intrinsic =
        measure_multicol_intrinsic(&config(Some(2), None, no_gap()), 64, 50 * 64, Space::MaxContent);
    assert_eq!(intrinsic, 100 * 64);
}

// Styles.

fn initial() -> ComputedStyle {
    let doc = Styled { dom: DomTree::new(), styles: Vec::new() };
    find_values(&doc, StyleOf::Element(0))
}

#[test]
fn width_stretch_fills_containing_block() {
    let mut s = initial();
    s.keywords.width = SizeKeyword::Stretch;
    let style = taffy_style_for(&s, &GridStyle::initial()).0;
    assert_eq!(style.size.width.resolve(200 * 64), Some(200 * 64));
    assert_eq!(style.size.height, Dimension::Auto);
}

#[test]
fn fractional_percentage_floats_that_fill_container_share_a_line() {
    let width = |millionths: i32, float: Float| {
        let mut s = initial();
        s.box_style.float = float;
        s.box_style.size.width = Dimension::Percent(millionths);
        match taffy_style_for(&s, &GridStyle::initial()).0.size.width {
            Dimension::Percent(p) => p,
            other => panic!("expected a share, got {other:?}"),
        }
    };
    // 16.66666667%, 66.66666667% and 16.66666667% to the nearest millionth.
    let shares = [166_667, 666_667, 166_667].map(|p| width(p, Float::Left));
    assert_eq!(shares, [166_666, 666_666, 166_666]);
    let container = 1258.0_f64;
    let ends: Vec<f64> = shares
        .iter()
        .scan(0.0, |x, p| {
            *x += f64::from(*p) / 1e6 * container;
            Some(*x)
        })
        .collect();
    assert!(ends[2] <= container, "the last float fits");
    assert_eq!(ends[1].round(), 1048.0);
    // What is not floated keeps its share, and so does nothing at all.
    assert_eq!(width(166_667, Float::Off), 166_667);
    assert_eq!(width(0, Float::Right), 0);
}

#[test]
fn justify_content_left_right_respect_rtl() {
    let of = |side: PhysicalSide, direction: Direction, down: bool| {
        let mut s = initial();
        s.box_style.display = Display::Flex;
        s.box_style.direction = direction;
        if down {
            s.box_style.flex_direction = FlexDirection::Column;
        }
        s.box_style.justify_content =
            Some(Alignment { keyword: AlignKeyword::Start, safe: false });
        s.justify_side = side;
        box_style_for(&s).justify_content.unwrap().keyword
    };
    // The start of the main axis is on the left, or on the right.
    assert_eq!(of(PhysicalSide::Left, Direction::Ltr, false), AlignKeyword::Start);
    assert_eq!(of(PhysicalSide::Left, Direction::Rtl, false), AlignKeyword::End);
    assert_eq!(of(PhysicalSide::Right, Direction::Ltr, false), AlignKeyword::End);
    assert_eq!(of(PhysicalSide::Right, Direction::Rtl, false), AlignKeyword::Start);
    assert_eq!(of(PhysicalSide::Right, Direction::Ltr, true), AlignKeyword::Start);
}

#[test]
fn safe_center_falls_back_when_overflowing() {
    let mut s = initial();
    s.box_style.align_items = Some(Alignment { keyword: AlignKeyword::Center, safe: false });
    s.safe.items = true;
    assert_eq!(
        box_style_for(&s).align_items,
        Some(Alignment { keyword: AlignKeyword::Center, safe: true })
    );
}

#[test]
fn line_heights() {
    assert_eq!(resolve_line_height(LineHeight::Normal, 100 * 64), 120 * 64);
    assert_eq!(resolve_line_height(LineHeight::Number(1_500_000), 10 * 64), 15 * 64);
    assert_eq!(resolve_line_height(LineHeight::Length(7), 10 * 64), 7);
    let mut parent = initial();
    parent.font_size = 99;
    parent.has_transform = true;
    let anonymous = anonymous_box_style(&parent);
    assert_eq!(anonymous.font_size, 99);
    assert!(!anonymous.has_transform);
    assert_eq!(anonymous_box_style(&anonymous), anonymous);
}

// Texts and numbers.

#[test]
fn the_case_of_text() {
    assert_eq!(transform_text("Straße x", TextCase::Uppercase), "STRASSE X");
    assert_eq!(transform_text("ÀB c", TextCase::Lowercase), "àb c");
    assert_eq!(transform_text("Ab c", TextCase::Unchanged), "Ab c");
    assert_eq!(capitalize_text("one-two 3rd éa"), "One-Two 3rd Éa");
    assert_eq!(capitalize_text("-- !"), "-- !");
}

#[test]
fn numbers_of_attributes() {
    assert_eq!(parse_i32(" 12 "), Some(12));
    assert_eq!(parse_i32("-3"), Some(-3));
    assert_eq!(parse_i32("+7"), Some(7));
    assert_eq!(parse_i32("2147483648"), None);
    assert_eq!(parse_i32("1x"), None);
    assert_eq!(parse_i32(""), None);
    assert_eq!(parse_u16("65535"), Some(65535));
    assert_eq!(parse_u16("65536"), None);
    assert_eq!(parse_u16("-1"), None);
}

// Rectangles.

#[test]
fn rectangles_and_edges() {
    let a = Rect { x: 0, y: 0, width: 10, height: 10 };
    let b = Rect { x: 20, y: 5, width: 5, height: 10 };
    assert_eq!(a.union(b), Rect { x: 0, y: 0, width: 25, height: 15 });
    let layout = Layout {
        border: Edges { left: 1, right: 1, top: 1, bottom: 1 },
        size: Size { width: 20, height: 20 },
        ..Layout::zero()
    };
    assert_eq!(
        oxidepage_layout::overflow::padding_box_of(&layout),
        Rect { x: 1, y: 1, width: 18, height: 18 }
    );
}
