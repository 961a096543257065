//! Geometry, scrolling, hit testing, transforms and pages, on trees whose boxes are placed by
//! hand where the box algorithms place them. Lengths are written in px.

use oxidepage_layout::corrections::{
    apply_absolute_auto_margins, apply_relative_float_offsets, markers_to_place, place_marker,
    reset_post_layout_offsets,
};
use oxidepage_layout::counter::{marker_text, CounterStyle};
use oxidepage_layout::dom::{DomNode, DomTree, NodeKind};
use oxidepage_layout::element_boxes::ScrollParent;
use oxidepage_layout::engine::{correct_layout, finish_layout, LayoutEngine};
use oxidepage_layout::geometry::Quad;
use oxidepage_layout::intrinsic_size::{begin_measure, end_measure, size_requests};
use oxidepage_layout::multicol::{break_opportunities, map_flow_point, unmap_content_point};
use oxidepage_layout::pagination::MAX_PAGES;
use oxidepage_layout::positioning::hoist_out_of_flow;
use oxidepage_layout::scroll_into_view::{axis_offset, scroll_into_view, Align};
use oxidepage_layout::transform::{
    has_transform, resolve, resolve_box_transform, resolve_transforms, Row, Transform3D,
    TransformOperation, TransformStyle, ONE,
};
use oxidepage_layout::tree::{
    BoxId, BoxKind, BoxStyle, ColumnGap, CssPosition, Direction, Display, FlexDirection, Float,
    IfcData, IntrinsicSizeKeyword, IntrinsicSizeTarget, LayoutBox, LineBox, LineItem,
    MulticolConfig, MulticolContext, NodeId, Overflow, Placement, PseudoBox, TextBrush,
    Transform2D, Viewport,
};
use oxidepage_layout::units::{Dimension, Edges, Offset, Point, Rect, Size};

const VIEWPORT: Viewport = Viewport { width: 800 * 64, height: 600 * 64 };

fn rect(r: Rect) -> (i64, i64, i64, i64) {
    assert!(r.x % 64 == 0 && r.y % 64 == 0 && r.width % 64 == 0 && r.height % 64 == 0);
    (r.x / 64, r.y / 64, r.width / 64, r.height / 64)
}

fn all(v: i32) -> Edges {
    Edges { left: v * 64, right: v * 64, top: v * 64, bottom: v * 64 }
}

fn px(v: i32) -> Dimension {
    Dimension::Length(v * 64)
}

/// A page with a document of `html` and `body`, both as large as the viewport.
struct Page {
    engine: LayoutEngine,
    dom: DomTree,
    html: usize,
    body: usize,
    root: BoxId,
    body_box: BoxId,
}

impl Page {
    fn new() -> Page {
        let mut page = Page {
            engine: LayoutEngine::new(VIEWPORT),
            dom: DomTree::new(),
            html: 0,
            body: 0,
            root: BoxId(0),
            body_box: BoxId(0),
        };
        let document = page.node(None, "", NodeKind::Document);
        page.html = page.node(Some(document), "html", NodeKind::Element);
        page.body = page.node(Some(page.html), "body", NodeKind::Element);
        page.root = page.boxed(None, Some(page.html), 0, 0, 800, 600);
        page.engine.tree.set_root(Some(page.root));
        page.body_box = page.boxed(Some(page.root), Some(page.body), 0, 0, 800, 600);
        page
    }

    fn node(&mut self, parent: Option<usize>, local: &str, kind: NodeKind) -> usize {
        let i = self.dom.nodes.len();
        let pushed = self.dom.push(DomNode {
            id: NodeId { index: i as u32, generation: 1 },
            kind,
            html: true,
            local: local.to_string(),
            attributes: Vec::new(),
            text: String::new(),
            parent,
            shadow_host: None,
            flat_parent: parent,
            flat_children: Vec::new(),
        });
        assert_eq!(pushed, Some(i));
        i
    }

    fn boxed(
        &mut self,
        parent: Option<BoxId>,
        node: Option<usize>,
        x: i32,
        y: i32,
        width: i32,
        height: i32,
    ) -> BoxId {
        let id = node.map(|i| self.dom.nodes[i].id);
        let mut b = LayoutBox::new(BoxKind::Block, id, BoxStyle::initial());
        b.final_layout.location = Offset { x: x * 64, y: y * 64 };
        b.final_layout.size = Size { width: width * 64, height: height * 64 };
        b.unrounded_layout = b.final_layout;
        let id = self.engine.tree.push_box(b);
        if let Some(p) = parent {
            self.engine.tree.append_child(p, id);
        }
        id
    }

    /// A `div` in the document and its box.
    fn div(
        &mut self,
        parent: BoxId,
        x: i32,
        y: i32,
        width: i32,
        height: i32,
    ) -> (NodeId, BoxId) {
        let mut up = Some(parent);
        let mut under = self.body;
        while let Some(id) = up {
            if let Some(n) = self.engine.tree.box_(id).dom_node {
                under = self.dom.find(n).unwrap();
                break;
            }
            up = self.engine.tree.box_(id).parent;
        }
        let i = self.node(Some(under), "div", NodeKind::Element);
        let id = self.boxed(Some(parent), Some(i), x, y, width, height);
        (self.dom.nodes[i].id, id)
    }

    fn at(&mut self, id: BoxId) -> &mut LayoutBox {
        self.engine.tree.box_mut(id)
    }

    fn overflow(&mut self, id: BoxId, overflow: Overflow) {
        let b = self.at(id);
        b.style.overflow_x = overflow;
        b.style.overflow_y = overflow;
    }

    fn finish(&mut self) {
        finish_layout(&mut self.engine.tree);
    }

    fn border_box(&self, node: NodeId) -> (i64, i64, i64, i64) {
        rect(self.engine.border_box(node).unwrap())
    }

    fn hit(&self, x: i64, y: i64) -> Option<NodeId> {
        self.engine.element_from_point(&self.dom, x * 64, y * 64)
    }

    fn hits(&self, x: i64, y: i64) -> Vec<NodeId> {
        self.engine.elements_from_point(&self.dom, x * 64, y * 64)
    }
}

// Positions and scrolling.

#[test]
fn nested_block_positions_accumulate() {
    let mut page = Page::new();
    let (_, outer) = page.div(page.body_box, 5, 5, 790, 40);
    let (inner, _) = page.div(outer, 10, 10, 50, 20);
    page.finish();
    assert_eq!(page.border_box(inner), (15, 15, 50, 20));
}

/// A scroller of 100 by 100 px with content of the given size.
fn scroller(overflow: Overflow, width: i32, height: i32) -> (Page, NodeId, NodeId) {
    let mut page = Page::new();
    let (scroller, id) = page.div(page.body_box, 0, 0, 100, 100);
    page.overflow(id, overflow);
    let (content, _) = page.div(id, 0, 0, width, height);
    page.finish();
    (page, scroller, content)
}

#[test]
fn scroll_offset_shifts_descendant_rects() {
    let (mut page, scroller, content) = scroller(Overflow::Scroll, 100, 500);
    assert_eq!(page.border_box(content).1, 0);
    let result = page.engine.set_scroll_offset(scroller, 0, 150 * 64);
    assert!(result.changed);
    assert_eq!(result.y, 150 * 64);
    assert_eq!(page.border_box(content).1, -150);
    // The scroller itself doesn't move.
    assert_eq!(page.border_box(scroller).1, 0);
    assert_eq!(page.engine.scroll_offset(scroller), Point { x: 0, y: 150 * 64 });
}

#[test]
fn scroll_offset_clamps_to_overflow() {
    let (mut page, node, _) = scroller(Overflow::Scroll, 100, 250);
    let result = page.engine.set_scroll_offset(node, 0, 10_000 * 64);
    assert_eq!(result.y, 150 * 64);
    let result = page.engine.set_scroll_offset(node, -5 * 64, -5 * 64);
    assert_eq!((result.x, result.y), (0, 0));
    assert!(result.changed);
    let result = page.engine.set_scroll_offset(node, 0, 0);
    assert!(!result.changed);

    // What is no scroll container stays where it is.
    let (mut page, plain, _) = scroller(Overflow::Visible, 100, 50);
    let result = page.engine.set_scroll_offset(plain, 10 * 64, 10 * 64);
    assert_eq!((result.x, result.y), (0, 0));
}

#[test]
fn align_items_flex_end_does_not_inflate_scroll_height_upward() {
    let mut page = Page::new();
    let (c, id) = page.div(page.body_box, 0, 0, 50, 50);
    page.overflow(id, Overflow::Scroll);
    page.at(id).style.display = Display::Flex;
    page.div(id, 0, -50, 50, 100);
    page.finish();
    assert_eq!(page.engine.scroll_size(c).unwrap().1, 50 * 64);
}

#[test]
fn align_items_center_scroll_height_includes_trailing_padding() {
    let mut page = Page::new();
    let (c, id) = page.div(page.body_box, 0, 0, 50, 65);
    page.overflow(id, Overflow::Scroll);
    page.at(id).style.display = Display::Flex;
    page.at(id).final_layout.padding.top = 5 * 64;
    page.at(id).final_layout.padding.bottom = 10 * 64;
    page.div(id, 0, -20, 50, 100);
    page.finish();
    assert_eq!(page.engine.scroll_size(c).unwrap().1, 90 * 64);
}

#[test]
fn justify_content_rtl_row_overflow_excludes_start_side() {
    let mut page = Page::new();
    let (c, id) = page.div(page.body_box, 0, 0, 65, 20);
    page.overflow(id, Overflow::Scroll);
    page.at(id).style.display = Display::Flex;
    page.at(id).style.direction = Direction::Rtl;
    page.at(id).final_layout.padding.left = 5 * 64;
    page.at(id).final_layout.padding.right = 10 * 64;
    page.div(id, -45, 0, 100, 20);
    page.finish();
    assert_eq!(page.engine.scroll_size(c).unwrap().0, 115 * 64);
}

#[test]
fn negative_margin_sibling_does_not_suppress_another_childs_overflow() {
    let mut page = Page::new();
    let (c, id) = page.div(page.body_box, 0, 0, 70, 40);
    page.at(id).final_layout.padding = all(10);
    let (_, overhang) = page.div(id, 5, 10, 60, 10);
    page.at(overhang).final_layout.margin.left = -5 * 64;
    page.at(overhang).final_layout.margin.right = -5 * 64;
    page.div(id, 10, 20, 100, 10);
    page.finish();
    assert_eq!(page.engine.scroll_size(c).unwrap().0, 120 * 64);
}

#[test]
fn scroll_size_reports_overflow_extent() {
    let (page, node, _) = scroller(Overflow::Hidden, 300, 40);
    let (w, h) = page.engine.scroll_size(node).unwrap();
    assert_eq!(w, 300 * 64);
    assert_eq!(h, 100 * 64, "floored by the client height");
}

#[test]
fn overflow_pass_records_scrollable_overflow() {
    let mut page = Page::new();
    // The body has a margin of 8 px.
    page.at(page.body_box).final_layout.location = Offset { x: 8 * 64, y: 8 * 64 };
    page.at(page.body_box).final_layout.size = Size { width: 784 * 64, height: 100 * 64 };
    let (_, id) = page.div(page.body_box, 0, 0, 100, 100);
    page.overflow(id, Overflow::Hidden);
    page.div(id, 0, 0, 300, 250);
    page.finish();
    let area = rect(page.engine.tree().box_(id).scrollable_overflow);
    assert_eq!((area.2, area.3), (300, 250));
    // The hidden overflow must not leak into the parent's overflow.
    let around = rect(page.engine.tree().box_(page.body_box).scrollable_overflow);
    assert!(around.2 <= 784 + 1);
}

/// A page whose root is overflowed downward by content of 2000 px.
fn tall(overflow: Overflow) -> (Page, NodeId) {
    let mut page = Page::new();
    page.overflow(page.root, overflow);
    let (tall, _) = page.div(page.body_box, 0, 0, 10, 2000);
    page.finish();
    (page, tall)
}

#[test]
fn overflow_hidden_root_does_not_scroll() {
    let (mut page, _) = tall(Overflow::Hidden);
    let result = page.engine.set_viewport_scroll(0, 500 * 64);
    assert_eq!(result.y, 0, "a hidden-overflow root pins the document");
    assert!(!result.changed);
}

#[test]
fn overflow_scroll_root_still_scrolls() {
    let (mut page, _) = tall(Overflow::Scroll);
    let result = page.engine.set_viewport_scroll(0, 500 * 64);
    assert_eq!(result.y, 500 * 64);
    assert!(result.changed);
}

#[test]
fn viewport_scroll_clamps_and_shifts() {
    let (mut page, tall) = tall(Overflow::Visible);
    let painted = page.engine.paint_stamp();
    let result = page.engine.set_viewport_scroll(0, 100 * 64);
    assert!(result.changed);
    assert_eq!(result.y, 100 * 64);
    assert_eq!(page.border_box(tall).1, -100);
    let result = page.engine.set_viewport_scroll(0, 99_999 * 64);
    assert_eq!(result.y, 1400 * 64);
    let result = page.engine.set_viewport_scroll(50 * 64, 0);
    assert_eq!(result.x, 0);
    // A display list is reused wherever the document is scrolled to.
    assert_eq!(page.engine.paint_stamp(), painted);
    assert_ne!(page.engine.document_scroll_version(), 0);
}

#[test]
fn revealing_scrolls_what_is_needed() {
    let (mut page, tall) = tall(Overflow::Visible);
    let (inner, _) = {
        let id = page.engine.tree().box_for_node(tall).unwrap();
        let made = page.div(id, 0, 1000, 10, 50);
        page.finish();
        made
    };
    let scrolled =
        scroll_into_view(&mut page.engine, &page.dom, inner, None, Align::Nearest, Align::Nearest);
    assert_eq!(scrolled.len(), 1);
    assert_eq!(page.border_box(inner).1, 550);
    // What is in view stays where it is.
    let again =
        scroll_into_view(&mut page.engine, &page.dom, inner, None, Align::Nearest, Align::Nearest);
    assert!(again.is_empty());
    scroll_into_view(&mut page.engine, &page.dom, inner, None, Align::Start, Align::Nearest);
    assert_eq!(page.border_box(inner).1, 0);
    scroll_into_view(&mut page.engine, &page.dom, inner, None, Align::Center, Align::Nearest);
    assert_eq!(page.border_box(inner).1, 275);
    scroll_into_view(&mut page.engine, &page.dom, inner, None, Align::End, Align::Nearest);
    assert_eq!(page.border_box(inner).1, 550);
}

#[test]
fn pages_cut_the_document() {
    let (page, _) = tall(Overflow::Visible);
    let cuts: Vec<i64> =
        page.engine.page_boundaries(900 * 64).into_iter().map(|v| v / 64).collect();
    assert_eq!(cuts.first(), Some(&0));
    assert_eq!(cuts.last(), Some(&2000));
    for pair in cuts.windows(2) {
        assert!(pair[0] < pair[1] && pair[1] - pair[0] <= 900);
    }
    assert_eq!(page.engine.document_content_extent(), (800 * 64, 2000 * 64));
}

#[test]
fn pages_are_limited_in_number() {
    let (page, _) = tall(Overflow::Visible);
    // Two thousand pages of a px each: the last one takes what is left.
    let cuts = page.engine.page_boundaries(64);
    assert_eq!(cuts.len(), MAX_PAGES + 1);
    assert_eq!((cuts[0], cuts[1], cuts[999]), (0, 64, 999 * 64));
    assert_eq!(cuts[1000], 2000 * 64);
    // They may be cut one after the other.
    let mut paging = page.engine.begin_pages(64);
    for cut in &cuts[1..] {
        assert_eq!(paging.next_end(), Some(*cut));
    }
    assert_eq!(paging.next_end(), None);
    assert_eq!(paging.next_end(), None);
    let mut one = page.engine.begin_pages(0);
    assert_eq!((one.next_end(), one.next_end()), (Some(2000 * 64), None));
}

#[test]
fn offsets_settle() {
    for align in [Align::Start, Align::Center, Align::End, Align::Nearest] {
        for start in [-70, -1, 0, 5, 60, 200] {
            for size in [0, 30, 100, 155] {
                let r = axis_offset(start, size, 100, 40, align);
                assert_eq!(axis_offset(start - (r - 40), size, 100, r, align), r);
            }
        }
    }
    assert_eq!(axis_offset(5, 30, 100, 40, Align::Nearest), 40);
    assert_eq!(axis_offset(5, 30, 100, 40, Align::Start), 45);
    assert_eq!(axis_offset(5, 30, 100, 40, Align::Center), 10);
    assert_eq!(axis_offset(5, 30, 100, 40, Align::End), -25);
    assert_eq!(axis_offset(90, 30, 100, 40, Align::Nearest), 60);
}

#[test]
fn what_is_larger_than_the_view_shows_its_start() {
    let (mut page, tall) = tall(Overflow::Visible);
    let (large, _) = {
        let id = page.engine.tree().box_for_node(tall).unwrap();
        let made = page.div(id, 0, 700, 10, 900);
        page.finish();
        made
    };
    for align in [Align::Nearest, Align::Start, Align::Center, Align::End] {
        page.engine.set_viewport_scroll(0, 0);
        scroll_into_view(&mut page.engine, &page.dom, large, None, align, Align::Nearest);
        if align == Align::Nearest {
            assert_eq!(page.border_box(large).1, 0);
        }
        // Once is enough.
        let again =
            scroll_into_view(&mut page.engine, &page.dom, large, None, align, Align::Nearest);
        assert!(again.is_empty());
    }
}

// Element boxes.

#[test]
fn client_box_reports_padding_box_and_borders() {
    let mut page = Page::new();
    let (d, id) = page.div(page.body_box, 0, 0, 126, 76);
    page.at(id).final_layout.padding = all(10);
    page.at(id).final_layout.border = all(3);
    page.finish();
    let client = page.engine.client_box(d).unwrap();
    assert_eq!((client.left, client.top), (3 * 64, 3 * 64));
    assert_eq!((client.width, client.height), (120 * 64, 70 * 64));
    assert_eq!(rect(page.engine.padding_box(d).unwrap()), (3, 3, 120, 70));
    assert_eq!(rect(page.engine.content_box(d).unwrap()), (10, 10, 100, 50));
}

#[test]
fn document_element_client_box_is_viewport() {
    let mut page = Page::new();
    page.at(BoxId(0)).final_layout.size.height = 10 * 64;
    page.finish();
    let html = page.dom.nodes[page.html].id;
    let client = page.engine.client_box(html).unwrap();
    assert_eq!((client.width, client.height), (800 * 64, 600 * 64));
}

#[test]
fn offset_chain_walks_positioned_ancestors() {
    let mut page = Page::new();
    // The top margin of `rel` collapses through the body.
    page.at(page.body_box).final_layout.location.y = 20 * 64;
    let (rel, id) = page.div(page.body_box, 20, 0, 760, 24);
    page.at(id).position = CssPosition::Relative;
    page.at(id).final_layout.padding = all(5);
    page.at(id).final_layout.border = all(2);
    let (inner, _) = page.div(id, 7, 7, 10, 10);
    page.finish();
    let offsets = page.engine.offset_box(&page.dom, inner).unwrap();
    assert_eq!(offsets.parent, Some(rel));
    assert_eq!((offsets.left, offsets.top), (5 * 64, 5 * 64));
    assert_eq!((offsets.width, offsets.height), (10 * 64, 10 * 64));
    let rel_offsets = page.engine.offset_box(&page.dom, rel).unwrap();
    assert_eq!(rel_offsets.parent, Some(page.dom.nodes[page.body].id));
    assert_eq!((rel_offsets.left, rel_offsets.top), (20 * 64, 20 * 64));
    assert_eq!(page.border_box(rel).1, 20);
    assert_eq!(page.engine.node_position(rel), Some(CssPosition::Relative));
}

#[test]
fn used_box_values_reflect_layout() {
    let mut page = Page::new();
    let (d, id) = page.div(page.body_box, 7, 7, 786, 38);
    page.at(id).final_layout.margin = all(7);
    page.at(id).final_layout.padding = all(4);
    page.finish();
    let used = page.engine.used_box_values(d).unwrap();
    assert_eq!((used.width, used.height), (778 * 64, 30 * 64));
    let m = used.margin;
    assert_eq!([m.top, m.right, m.bottom, m.left], [7 * 64; 4]);
    let p = used.padding;
    assert_eq!([p.top, p.right, p.bottom, p.left], [4 * 64; 4]);
}

#[test]
fn scroll_parents() {
    let (page, scroller, content) = scroller(Overflow::Scroll, 100, 500);
    assert_eq!(page.engine.scroll_parent(&page.dom, content), ScrollParent::Element(scroller));
    assert_eq!(
        page.engine.scroll_parent(&page.dom, scroller),
        ScrollParent::DocumentScrollingElement
    );
    assert_eq!(page.engine.overflow_is_visible(scroller), Some(false));
    assert_eq!(page.engine.overflow_is_visible(content), Some(true));
}

// Inline content.

/// Lines of text of 10 px each: the advances of their runs and the nodes that own them.
fn lines(runs: &[&[(i32, Option<NodeId>)]]) -> IfcData {
    lines_of(10, runs)
}

/// Lines of text of so many px each, four fifths of them above the baseline.
fn lines_of(height: i32, runs: &[&[(i32, Option<NodeId>)]]) -> IfcData {
    let mut lines = Vec::new();
    for (k, line) in runs.iter().enumerate() {
        let mut items = Vec::new();
        let mut offset = 0;
        for (advance, node) in line.iter() {
            let brush = match node {
                Some(n) => TextBrush::from_node(*n),
                None => TextBrush::unowned(),
            };
            items.push(LineItem::Run { offset: offset * 64, advance: advance * 64, brush });
            offset += advance;
        }
        let top = k as i32 * height * 64;
        let ascent = height * 64 * 4 / 5;
        lines.push(LineBox {
            top,
            baseline: top + ascent,
            ascent,
            descent: height * 64 - ascent,
            items,
        });
    }
    IfcData { lines, text: String::new(), contributors: Vec::new() }
}

/// A block of the given size that holds a `span`, and the box with its text, which is an
/// anonymous one beside a block sibling where `wrapped` says so.
fn block_with_span(width: i32, wrapped: bool) -> (Page, NodeId, NodeId, BoxId) {
    let mut page = Page::new();
    let (d, id) = page.div(page.body_box, 0, 0, width, 60);
    let under = page.dom.find(d).unwrap();
    let i = page.node(Some(under), "span", NodeKind::Element);
    let span = page.dom.nodes[i].id;
    let holder = if wrapped {
        let anon = page.boxed(Some(id), None, 0, 0, width, 30);
        page.at(anon).kind = BoxKind::AnonymousBlock;
        page.div(id, 0, 30, width, 20);
        anon
    } else {
        page.at(id).kind = BoxKind::InlineRoot;
        id
    };
    (page, d, span, holder)
}

fn fill(page: &mut Page, id: BoxId, mut ifc: IfcData, nodes: &[NodeId]) {
    ifc.contributors = nodes.to_vec();
    page.at(id).ifc = Some(ifc);
    page.finish();
}

#[test]
fn inline_span_has_per_line_rects() {
    let (mut page, d, span, id) = block_with_span(60, false);
    let data = lines(&[&[(60, Some(d))], &[(60, Some(span))], &[(20, Some(span))]]);
    fill(&mut page, id, data, &[d, span]);
    let rects: Vec<(i64, i64, i64, i64)> =
        page.engine.client_rects(&page.dom, span).into_iter().map(rect).collect();
    assert_eq!(rects, [(0, 10, 60, 10), (0, 20, 20, 10)]);
    let bounding = rect(page.engine.bounding_client_rect(&page.dom, span).unwrap());
    assert_eq!(bounding, (0, 10, 60, 20));
}

#[test]
fn inline_span_in_anonymous_ifc_has_rects() {
    let (mut page, d, span, id) = block_with_span(200, true);
    fill(&mut page, id, lines(&[&[(20, Some(d)), (30, Some(span))]]), &[d, span]);
    let rects: Vec<(i64, i64, i64, i64)> =
        page.engine.client_rects(&page.dom, span).into_iter().map(rect).collect();
    assert_eq!(rects, [(20, 0, 30, 10)]);
}

#[test]
fn content_quads_report_one_quad_per_line() {
    let (mut page, d, span, id) = block_with_span(30, false);
    fill(&mut page, id, lines(&[&[(40, Some(span))], &[(30, Some(span))]]), &[d, span]);
    let quads = page.engine.content_quads(&page.dom, span);
    assert_eq!(quads.len(), 2);
    assert_eq!(quads[0].top_left, Point { x: 0, y: 0 });
    assert_eq!(quads[1].top_left, Point { x: 0, y: 10 * 64 });
}

#[test]
fn hit_test_attributes_text_to_span() {
    let (mut page, d, span, id) = block_with_span(200, false);
    fill(&mut page, id, lines(&[&[(20, Some(d)), (20, Some(span))]]), &[d, span]);
    assert_eq!(page.hit(25, 5), Some(span));
    assert_eq!(page.hit(5, 5), Some(d));
}

#[test]
fn hit_test_attributes_text_to_span_inside_an_anonymous_block() {
    let (mut page, d, span, id) = block_with_span(200, true);
    fill(&mut page, id, lines(&[&[(20, Some(d)), (20, Some(span))]]), &[d, span]);
    assert_eq!(page.hit(25, 5), Some(span));
    let hits = page.hits(25, 5);
    let span_pos = hits.iter().position(|&n| n == span).expect("span in stack");
    let d_pos = hits.iter().position(|&n| n == d).expect("div in stack");
    assert!(span_pos < d_pos, "span before its container: {hits:?}");
    assert_eq!(hits.len(), 4, "the block sibling is not hit: {hits:?}");
    assert_eq!(page.hit(5, 5), Some(d));
}

#[test]
fn hit_test_attributes_text_to_span_inside_a_flex_item() {
    let (mut page, d, span, id) = block_with_span(200, true);
    let flex = page.engine.tree().box_(id).parent.unwrap();
    page.at(flex).style.display = Display::Flex;
    fill(&mut page, id, lines(&[&[(20, Some(d)), (20, Some(span))]]), &[d, span]);
    assert_eq!(page.hit(25, 5), Some(span));
}

// Hit testing.

/// Two absolutely positioned boxes at the origin, the second above the first.
fn stacked() -> (Page, NodeId, NodeId) {
    let mut page = Page::new();
    let (below, a) = page.div(page.body_box, 0, 0, 100, 100);
    let (above, b) = page.div(page.body_box, 0, 0, 50, 50);
    for id in [a, b] {
        page.at(id).position = CssPosition::Absolute;
        page.at(id).style.placement = Placement::OutOfFlow;
    }
    page.at(b).z_index = 5;
    page.finish();
    (page, below, above)
}

#[test]
fn element_from_point_hits_topmost_positioned() {
    let (page, below, above) = stacked();
    assert_eq!(page.hit(25, 25), Some(above));
    assert_eq!(page.hit(75, 75), Some(below));
    let hit = page.hit(400, 400).unwrap();
    assert!(hit == page.dom.nodes[page.body].id || hit == page.dom.nodes[page.html].id);
    assert_eq!(page.hit(-1, 10), None);
    assert_eq!(page.hit(10, 10_000), None);
}

#[test]
fn elements_from_point_reports_full_stack_of_siblings() {
    let (page, below, above) = stacked();
    let hits = page.hits(25, 25);
    let above_pos = hits.iter().position(|&n| n == above).unwrap();
    let below_pos =
        hits.iter().position(|&n| n == below).expect("lower sibling present in the stack");
    assert!(above_pos < below_pos, "paint order: {hits:?}");
    assert_eq!(hits.last(), Some(&page.dom.nodes[page.html].id));
}

#[test]
fn elements_from_point_lists_chain_topmost_first() {
    let mut page = Page::new();
    let (outer, id) = page.div(page.body_box, 0, 0, 200, 200);
    let (inner, _) = page.div(id, 0, 0, 100, 100);
    page.finish();
    let hits = page.hits(50, 50);
    let inner_pos = hits.iter().position(|&n| n == inner).unwrap();
    let outer_pos = hits.iter().position(|&n| n == outer).unwrap();
    assert!(inner_pos < outer_pos, "inner before outer: {hits:?}");
    assert_eq!(hits.last(), Some(&page.dom.nodes[page.html].id));
}

#[test]
fn hit_test_clips_children_at_the_padding_edge() {
    let mut page = Page::new();
    let (outer, id) = page.div(page.body_box, 0, 0, 120, 120);
    page.at(id).final_layout.border = all(10);
    page.overflow(id, Overflow::Hidden);
    let (inner, _) = page.div(id, 0, 0, 100, 100);
    page.finish();
    assert_eq!(page.hit(5, 5), Some(outer));
    assert_eq!(page.hit(20, 20), Some(inner));
}

#[test]
fn flex_order_affects_hit_test_paint_order() {
    let mut page = Page::new();
    let (_, flex) = page.div(page.body_box, 0, 0, 600, 20);
    page.at(flex).style.display = Display::Flex;
    // The children stand in their layout order: the later one is painted last.
    let (_, left) = page.div(flex, 0, 0, 300, 20);
    let (right, id) = page.div(flex, 200, 0, 300, 20);
    page.at(left).order = 0;
    page.at(id).order = 1;
    page.finish();
    // (250, 5) is inside the overlap of both boxes; `right` paints on top.
    assert_eq!(page.hit(250, 5), Some(right));
}

#[test]
fn boxes_without_pointer_events_are_not_hit() {
    let (mut page, below, above) = stacked();
    let id = page.engine.tree().box_for_node(above).unwrap();
    page.at(id).pointer_events_none = true;
    assert_eq!(page.hit(25, 25), Some(below));
}

#[test]
fn a_point_on_an_outside_marker_hits_the_list_item() {
    let mut page = Page::new();
    let (a, item) = page.div(page.body_box, 40, 0, 760, 20);
    let marker = page.boxed(Some(item), None, 0, 0, 0, 0);
    page.at(marker).pseudo = Some(PseudoBox::Marker);
    page.at(marker).dom_node = Some(a);
    page.at(marker).style.placement = Placement::OutOfFlow;
    page.at(marker).font_size = 16 * 64;
    assert_eq!(markers_to_place(page.engine.tree()), [marker]);
    place_marker(&mut page.engine.tree, marker, Size { width: 6 * 64, height: 20 * 64 });
    let placed = page.engine.tree().box_(marker).unrounded_layout;
    // Its right edge lies half an em before the content edge of the item.
    assert_eq!(placed.location, Offset { x: -14 * 64, y: 0 });
    page.at(marker).final_layout = placed;
    page.finish();
    assert_eq!(page.hit(29, 10), Some(a));
    let stack = page.hits(29, 10);
    assert_eq!(stack.iter().filter(|&&n| n == a).count(), 1, "{stack:?}");
    // It does not widen what scrolling reaches.
    assert!(page.engine.tree().box_(item).scrollable_overflow.x >= 0);
}

/// Places a marker of the given width outside a list item.
fn outside_marker(page: &mut Page, item: BoxId, node: NodeId, width: i32) -> BoxId {
    let marker = page.boxed(Some(item), None, 0, 0, 0, 0);
    let b = page.at(marker);
    b.pseudo = Some(PseudoBox::Marker);
    b.dom_node = Some(node);
    b.style.placement = Placement::OutOfFlow;
    b.font_size = 16 * 64;
    place_marker(
        &mut page.engine.tree,
        marker,
        Size { width: width * 64, height: 20 * 64 },
    );
    let placed = page.engine.tree().box_(marker).unrounded_layout;
    page.at(marker).final_layout = placed;
    marker
}

#[test]
fn numbers_right_align_across_a_digit_boundary() {
    let decimal = CounterStyle::Name("decimal".to_string());
    assert_eq!(marker_text(&decimal, 9, false), Some("9.".to_string()));
    assert_eq!(marker_text(&decimal, 10, false), Some("10.".to_string()));
    let mut page = Page::new();
    let (a, first) = page.div(page.body_box, 40, 0, 760, 20);
    let (b, second) = page.div(page.body_box, 40, 20, 760, 20);
    let nine = outside_marker(&mut page, first, a, 12);
    let ten = outside_marker(&mut page, second, b, 20);
    page.finish();
    let right_edge = |item: NodeId, marker: BoxId| {
        let m = page.engine.tree().box_(marker).final_layout;
        let (x, _, _, _) = page.border_box(item);
        x * 64 + i64::from(m.location.x) + i64::from(m.size.width)
    };
    // "9." and "10." differ in width, but both end at the same x - which is what makes a
    // numbered list line up under its periods.
    assert_eq!(right_edge(a, nine), right_edge(b, ten));
}

#[test]
fn outside_marker_does_not_resize_the_item_or_its_overflow() {
    let mut page = Page::new();
    let (a, item) = page.div(page.body_box, 40, 0, 760, 20);
    let mut plain = Page::new();
    let (a_plain, _) = plain.div(plain.body_box, 40, 0, 760, 20);
    outside_marker(&mut page, item, a, 6);
    page.finish();
    plain.finish();
    assert_eq!(
        page.border_box(a),
        plain.border_box(a_plain),
        "the marker must not change the item's border box",
    );
    // The marker hangs off the item's start edge; the scrollable overflow region is clipped
    // there, so it must not widen `scrollWidth`.
    let overflow = page.engine.tree().box_(item).scrollable_overflow;
    assert!(
        overflow.x >= 0,
        "outside marker leaked into the item's scrollable overflow: {overflow:?}",
    );
}

#[test]
fn outside_marker_sits_a_gap_before_the_items_content_edge() {
    let mut page = Page::new();
    let (a, item) = page.div(page.body_box, 40, 0, 760, 20);
    page.at(item).unrounded_layout.border.left = 3 * 64;
    page.at(item).unrounded_layout.padding.left = 5 * 64;
    let marker = page.boxed(Some(item), None, 0, 0, 0, 0);
    page.at(marker).pseudo = Some(PseudoBox::Marker);
    page.at(marker).dom_node = Some(a);
    page.at(marker).style.placement = Placement::OutOfFlow;
    page.at(marker).font_size = 16 * 64;
    place_marker(&mut page.engine.tree, marker, Size { width: 6 * 64, height: 20 * 64 });
    let m = page.engine.tree().box_(marker);
    assert!(m.is_outside_marker());
    let right = m.unrounded_layout.location.x + m.unrounded_layout.size.width;
    assert_eq!(right, (3 + 5 - 8) * 64);
    assert_eq!(m.unrounded_layout.location.y, 0);
}

// Transforms.

fn linear(a: i32, b: i32, c: i32, d: i32) -> TransformOperation {
    TransformOperation::Linear { a: a * ONE, b: b * ONE, c: c * ONE, d: d * ONE }
}

fn style(list: Vec<TransformOperation>) -> TransformStyle {
    TransformStyle {
        translate: None,
        rotate: None,
        scale: None,
        list,
        origin_x: Dimension::Percent(500_000),
        origin_y: Dimension::Percent(500_000),
    }
}

fn moved(x: Dimension, y: Dimension) -> TransformOperation {
    TransformOperation::Translate { x, y, z: 0 }
}

/// A block of 100 by 40 px at the origin with a transform.
fn transformed(style: &TransformStyle) -> (Page, NodeId, BoxId) {
    let mut page = Page::new();
    let (d, id) = page.div(page.body_box, 0, 0, 100, 40);
    turn(&mut page, id, style);
    page.finish();
    (page, d, id)
}

#[test]
fn transforms_are_resolved_by_the_size_of_each_box() {
    let half = Dimension::Percent(500_000);
    let (mut page, _, id) = transformed(&style(Vec::new()));
    page.at(id).has_transform = true;
    let n = page.engine.tree().box_count();
    let styles: Vec<TransformStyle> =
        (0..n).map(|_| style(vec![moved(half, Dimension::Length(0))])).collect();
    resolve_transforms(&mut page.engine.tree, &styles);
    let t = page.engine.tree().box_(id).transform.expect("a transform");
    assert_eq!((t.tx, t.ty), (50 * 64, 0));
    assert!(page.engine.tree().box_(page.body_box).transform.is_none());
    // A box that has lost its transform loses the matrix.
    page.at(id).has_transform = false;
    resolve_box_transform(&mut page.engine.tree, id, &styles[0]);
    assert!(page.engine.tree().box_(id).transform.is_none());
}

/// A quarter turn about the horizontal axis, one way or the other.
fn tipped(way: i64) -> TransformOperation {
    let one = i64::from(ONE);
    let row = |x: i64, y: i64, z: i64, w: i64| Row { x, y, z, w };
    TransformOperation::Space(Transform3D {
        x: row(one, 0, 0, 0),
        y: row(0, 0, way * one, 0),
        z: row(0, -way * one, 0, 0),
        w: row(0, 0, 0, one),
    })
}

#[test]
fn functions_in_space_are_put_together_before_they_are_flattened() {
    let size = Size { width: 100 * 64, height: 40 * 64 };
    // One turn undoes the other.
    assert_eq!(resolve(&style(vec![tipped(1), tipped(-1)]), size), None);
    // On its own it leaves nothing of the height.
    let t = resolve(&style(vec![tipped(1)]), size).expect("a transform");
    assert_eq!((t.a, t.b, t.c, t.d), (ONE, 0, 0, 0));
    // A move in depth, tipped, is a move in the plane.
    let deep = TransformOperation::Translate { x: px(0), y: px(0), z: 30 * 64 };
    let t = resolve(&style(vec![tipped(1), deep, tipped(-1)]), size).expect("a transform");
    assert_eq!(t, Transform2D { a: ONE, b: 0, c: 0, d: ONE, tx: 0, ty: -30 * 64 });
    // A perspective does not show in the plane, but in what is moved in depth after it: at half
    // the distance to the viewer, the move counts into the fourth coordinate alone.
    let far = TransformOperation::Space(Transform3D {
        x: Row { x: i64::from(ONE), y: 0, z: 0, w: 0 },
        y: Row { x: 0, y: i64::from(ONE), z: 0, w: 0 },
        z: Row { x: 0, y: 0, z: i64::from(ONE), w: -65536 * 1024 },
        w: Row { x: 0, y: 0, z: 0, w: i64::from(ONE) },
    });
    assert_eq!(resolve(&style(vec![far, deep]), size), None);
}

fn turn(page: &mut Page, id: BoxId, style: &TransformStyle) {
    let size = page.engine.tree().box_(id).final_layout.size;
    page.at(id).has_transform = has_transform(style);
    page.at(id).transform = resolve(style, size);
}

#[test]
fn translate_shifts_the_bounding_rect() {
    let (page, d, _) = transformed(&style(vec![moved(px(30), px(-10))]));
    assert_eq!(page.border_box(d), (30, -10, 100, 40));
}

#[test]
fn percentage_translate_resolves_against_the_border_box() {
    let (page, d, _) = transformed(&style(vec![moved(
        Dimension::Percent(500_000),
        Dimension::Percent(1_000_000),
    )]));
    assert_eq!(page.border_box(d), (50, 40, 100, 40));
}

#[test]
fn scale_grows_the_rect_about_the_default_center_origin() {
    let (page, d, _) = transformed(&style(vec![linear(2, 0, 0, 2)]));
    assert_eq!(page.border_box(d), (-50, -20, 200, 80));
}

#[test]
fn transform_origin_moves_the_fixed_point() {
    let mut s = style(vec![linear(2, 0, 0, 2)]);
    s.origin_x = px(0);
    s.origin_y = px(0);
    let (page, d, _) = transformed(&s);
    assert_eq!(page.border_box(d), (0, 0, 200, 80));
}

/// A quarter turn.
fn quarter() -> TransformOperation {
    linear(0, 1, -1, 0)
}

#[test]
fn rotation_reports_the_bounding_box_of_the_quad() {
    let (page, d, _) = transformed(&style(vec![quarter()]));
    assert_eq!(page.border_box(d), (30, -30, 40, 100));
}

#[test]
fn individual_transform_properties_compose_in_spec_order() {
    let mut s = style(Vec::new());
    s.translate = Some(moved(px(10), px(5)));
    s.scale = Some(linear(2, 0, 0, 2));
    let (page, d, _) = transformed(&s);
    assert_eq!(page.border_box(d), (-40, -15, 200, 80));
}

#[test]
fn nested_transforms_compose_outermost_last() {
    let mut page = Page::new();
    let (_, outer) = page.div(page.body_box, 0, 0, 210, 10);
    let (inner, id) = page.div(outer, 10, 0, 20, 10);
    let mut s = style(vec![moved(px(100), px(0)), linear(2, 0, 0, 2)]);
    s.origin_x = px(0);
    s.origin_y = px(0);
    turn(&mut page, outer, &s);
    turn(&mut page, id, &style(vec![moved(px(5), px(0))]));
    page.finish();
    assert_eq!(page.border_box(inner), (130, 0, 40, 20));
}

#[test]
fn a_transformed_ancestor_moves_a_descendants_rect() {
    let mut page = Page::new();
    let (_, panel) = page.div(page.body_box, 0, 0, 800, 20);
    let (inner, _) = page.div(panel, 0, 0, 50, 20);
    turn(&mut page, panel, &style(vec![moved(px(0), Dimension::Percent(-1_000_000))]));
    page.finish();
    assert_eq!(page.border_box(inner), (0, -20, 50, 20));
}

#[test]
fn offset_and_client_boxes_ignore_transforms() {
    let mut page = Page::new();
    let (d, id) = page.div(page.body_box, 0, 0, 110, 50);
    page.at(id).final_layout.border = all(5);
    page.div(id, 5, 5, 100, 300);
    turn(&mut page, id, &style(vec![moved(px(30), px(70)), linear(2, 0, 0, 2)]));
    page.finish();
    let offset = page.engine.offset_box(&page.dom, d).unwrap();
    assert_eq!((offset.left, offset.top), (0, 0));
    assert_eq!((offset.width, offset.height), (110 * 64, 50 * 64));
    let client = page.engine.client_box(d).unwrap();
    assert_eq!((client.left, client.top), (5 * 64, 5 * 64));
    assert_eq!((client.width, client.height), (100 * 64, 40 * 64));
    assert_eq!(page.engine.scroll_size(d).unwrap().1, 300 * 64);
    let (_, _, width, height) = page.border_box(d);
    assert_eq!((width, height), (220, 100));
}

#[test]
fn content_quads_report_corners_of_a_rotated_box() {
    let (page, d, _) = transformed(&style(vec![quarter()]));
    let quads = page.engine.content_quads(&page.dom, d);
    let corner = |x: i64, y: i64| Point { x: x * 64, y: y * 64 };
    assert_eq!(
        quads,
        [Quad {
            top_left: corner(70, -30),
            top_right: corner(70, 70),
            bottom_right: corner(30, 70),
            bottom_left: corner(30, -30),
        }]
    );
}

#[test]
fn hit_testing_inverts_the_transform() {
    let (page, d, _) = transformed(&style(vec![moved(px(200), px(0))]));
    assert_eq!(page.hit(250, 20), Some(d));
    assert_ne!(page.hit(50, 20).unwrap(), d, "the untransformed position must not hit");
}

#[test]
fn hit_testing_inside_and_outside_a_rotated_box() {
    let (page, d, _) = transformed(&style(vec![quarter()]));
    assert_eq!(page.hit(35, 60), Some(d));
    assert_ne!(page.hit(10, 30), Some(d));
}

#[test]
fn a_zero_scaled_box_is_not_hit_testable() {
    let (page, d, _) = transformed(&style(vec![linear(0, 0, 0, 0)]));
    let hits = page.hits(50, 20);
    assert!(!hits.contains(&d), "{hits:?}");
}

#[test]
fn matrices_are_undone() {
    let t = Transform2D { a: 2 * ONE, b: 0, c: 0, d: ONE, tx: 640, ty: -64 };
    let p = Point { x: 320, y: 128 };
    assert_eq!(t.apply(p), Point { x: 1280, y: 64 });
    assert_eq!(t.invert(t.apply(p)), Some(p));
    let none = Transform2D { a: 0, b: 0, c: 0, d: 0, tx: 0, ty: 0 };
    assert_eq!(none.invert(p), None);
    assert!(!has_transform(&style(Vec::new())));
}

// Corrections.

/// An absolutely positioned box of 155 by 40 px, centered in a block of 211 by 100 px.
fn centered() -> (Page, BoxId) {
    let mut page = Page::new();
    let (_, around) = page.div(page.body_box, 0, 0, 211, 100);
    page.at(around).position = CssPosition::Relative;
    let (_, id) = page.div(around, 0, 0, 155, 40);
    let b = page.at(id);
    b.position = CssPosition::Absolute;
    b.style.placement = Placement::OutOfFlow;
    b.style.inset.left = px(0);
    b.style.inset.right = px(0);
    b.style.inset.top = px(0);
    b.style.inset.bottom = px(0);
    b.style.size.width = px(155);
    b.style.size.height = px(40);
    b.style.margin.left = Dimension::Auto;
    b.style.margin.right = Dimension::Auto;
    b.style.margin.top = Dimension::Auto;
    b.style.margin.bottom = Dimension::Auto;
    (page, id)
}

#[test]
fn absolute_box_with_opposing_insets_and_auto_margins_is_centered() {
    let (mut page, id) = centered();
    apply_absolute_auto_margins(&mut page.engine.tree);
    let layout = page.engine.tree().box_(id).unrounded_layout;
    assert_eq!((layout.location.x, layout.location.y), (28 * 64, 30 * 64));
    assert_eq!((layout.size.width, layout.size.height), (155 * 64, 40 * 64));
    assert_eq!(layout.margin.left, layout.margin.right);
    // Taking the correction back leads to where the box was.
    reset_post_layout_offsets(&mut page.engine.tree);
    assert_eq!(page.engine.tree().box_(id).unrounded_layout.location, Offset { x: 0, y: 0 });
}

#[test]
fn relative_offset_moves_a_float_without_affecting_flow_height() {
    let mut page = Page::new();
    let (_, row) = page.div(page.body_box, 0, 0, 300, 40);
    let (_, id) = page.div(row, 0, 0, 100, 40);
    let b = page.at(id);
    b.style.float = Float::Left;
    b.position = CssPosition::Relative;
    b.style.inset.top = px(30);
    apply_relative_float_offsets(&mut page.engine.tree);
    let tree = page.engine.tree();
    assert_eq!(tree.box_(id).unrounded_layout.location, Offset { x: 0, y: 30 * 64 });
    assert_eq!(
        tree.box_(row).unrounded_layout.size.height,
        40 * 64,
        "relative offset is out of flow"
    );
}

#[test]
fn post_layout_offsets_do_not_accumulate_on_incremental_reflow() {
    let (mut page, abs) = centered();
    let (_, float) = page.div(page.body_box, 0, 100, 20, 20);
    let b = page.at(float);
    b.style.float = Float::Left;
    b.position = CssPosition::Relative;
    b.style.inset.top = px(30);
    for _ in 0..3 {
        // The layout algorithms take the boxes from their cache in between.
        reset_post_layout_offsets(&mut page.engine.tree);
        correct_layout(&mut page.engine.tree);
        let tree = page.engine.tree();
        assert_eq!(tree.box_(abs).unrounded_layout.location.x, 28 * 64);
        assert_eq!(tree.box_(float).unrounded_layout.location.y, 130 * 64);
    }
}

fn copy_layouts(page: &mut Page) {
    for n in 0..page.engine.tree.boxes.len() {
        let l = page.engine.tree.boxes[n].unrounded_layout;
        page.engine.tree.boxes[n].final_layout = l;
    }
}

#[test]
fn nested_auto_inset_absolutes_use_corrected_ancestor_position() {
    let mut page = Page::new();
    let (_, cb) = page.div(page.body_box, 0, 0, 380, 380);
    page.at(cb).position = CssPosition::Relative;
    page.at(cb).unrounded_layout.padding = all(40);
    let (_, outer) = page.div(cb, 40, 40, 100, 100);
    let (_, inner) = page.div(outer, 0, 0, 10, 10);
    for id in [outer, inner] {
        page.at(id).position = CssPosition::Absolute;
        page.at(id).style.placement = Placement::OutOfFlow;
    }
    hoist_out_of_flow(&mut page.engine.tree);
    correct_layout(&mut page.engine.tree);
    copy_layouts(&mut page);
    page.finish();
    let tree = page.engine.tree();
    assert_eq!(tree.box_(outer).final_layout.location, Offset { x: 40 * 64, y: 40 * 64 });
    assert_eq!(tree.box_(inner).final_layout.location, Offset { x: 0, y: 0 });
}

#[test]
fn a_hoisted_box_without_insets_stays_where_the_flow_has_it() {
    let mut page = Page::new();
    let (_, outer) = page.div(page.body_box, 30, 40, 100, 100);
    let (node, id) = page.div(outer, 0, 0, 10, 10);
    page.at(id).position = CssPosition::Absolute;
    page.at(id).style.placement = Placement::OutOfFlow;
    hoist_out_of_flow(&mut page.engine.tree);
    assert_eq!(page.engine.tree().box_(id).parent, Some(page.root));
    correct_layout(&mut page.engine.tree);
    copy_layouts(&mut page);
    page.finish();
    assert_eq!(page.border_box(node), (30, 40, 10, 10));
}

// Intrinsic sizes.

#[test]
fn min_width_min_content_shrinks_back_down() {
    let mut page = Page::new();
    let (_, id) = page.div(page.body_box, 0, 0, 50, 50);
    page.at(id).intrinsic_size_keywords =
        vec![(IntrinsicSizeTarget::MinWidth, IntrinsicSizeKeyword::MinContent)];
    for width in [100, 20] {
        let requests = size_requests(page.engine.tree());
        assert_eq!(requests.len(), 1);
        assert!(requests[0].is_width);
        begin_measure(&mut page.engine.tree, &requests[0]);
        // The length of an earlier pass does not bound what this one measures.
        assert_eq!(page.engine.tree().box_(id).style.min_size.width, Dimension::Auto);
        let size = Size { width: width * 64, height: 0 };
        end_measure(&mut page.engine.tree, &requests[0], size);
        assert_eq!(page.engine.tree().box_(id).style.min_size.width, px(width));
    }
}

#[test]
fn flex_basis_is_measured_along_the_main_axis() {
    let mut page = Page::new();
    let (_, flex) = page.div(page.body_box, 0, 0, 50, 50);
    let (_, id) = page.div(flex, 0, 0, 50, 50);
    page.at(id).intrinsic_size_keywords =
        vec![(IntrinsicSizeTarget::FlexBasis, IntrinsicSizeKeyword::MinContent)];
    assert_eq!(size_requests(page.engine.tree()).len(), 1);
    page.at(flex).style.flex_direction = FlexDirection::Column;
    assert!(size_requests(page.engine.tree()).is_empty());
}

// Columns.

/// Makes `root` a container of two columns over `flow`, the second of which starts at `cut`.
fn columnize(page: &mut Page, root: BoxId, flow: BoxId, width: i32, gap: i32, cut: i64) {
    page.at(root).kind = BoxKind::MulticolRoot;
    let end = i64::from(page.engine.tree().box_(flow).final_layout.size.height) / 64;
    let raw = break_opportunities(page.engine.tree(), flow, true);
    let at = |y: i64| raw.iter().position(|&v| v == y * 64).unwrap();
    let boundaries = vec![at(0), at(cut), at(end)];
    page.engine.tree.set_multicol(
        root,
        MulticolContext {
            config: MulticolConfig {
                count: Some(2),
                width: None,
                gap: ColumnGap::Length(px(gap)),
            },
            flow,
            used_width: width * 64,
            used_gap: gap * 64,
            boundaries,
            columns: Vec::new(),
        },
    );
}

/// A container of 200 px with two columns over blocks of 30 px.
fn columns(gap: i32, blocks: i32, cut: i64) -> (Page, NodeId, BoxId, Vec<NodeId>) {
    let width = (200 - gap) / 2;
    let mut page = Page::new();
    let (m, root) = page.div(page.body_box, 0, 0, 200, cut as i32);
    let flow = page.boxed(Some(root), None, 0, 0, width, blocks * 30);
    page.at(flow).kind = BoxKind::AnonymousBlock;
    let nodes = (0..blocks).map(|k| page.div(flow, 0, k * 30, width, 30).0).collect();
    columnize(&mut page, root, flow, width, gap, cut);
    page.finish();
    (page, m, root, nodes)
}

/// A container of two columns of 100 px over a `span` of four lines of 20 px.
fn two_column_text() -> (Page, NodeId, BoxId) {
    let mut page = Page::new();
    let (m, root) = page.div(page.body_box, 0, 0, 200, 40);
    let flow = page.boxed(Some(root), None, 0, 0, 100, 80);
    page.at(flow).kind = BoxKind::InlineRoot;
    let under = page.dom.find(m).unwrap();
    let i = page.node(Some(under), "span", NodeKind::Element);
    let span = page.dom.nodes[i].id;
    let line = [(100, Some(span))];
    let mut ifc = lines_of(20, &[&line, &line, &line, &line]);
    ifc.contributors = vec![m, span];
    page.at(flow).ifc = Some(ifc);
    columnize(&mut page, root, flow, 100, 0, 40);
    page.finish();
    (page, span, root)
}

#[test]
fn a_block_in_the_second_column_reports_a_rect_there() {
    // Three 30px blocks balance into two columns of 60px: the last starts the second.
    let (page, _, root, blocks) = columns(0, 3, 60);
    let mc = page.engine.tree().box_(root).multicol.as_ref().unwrap();
    assert_eq!(mc.used_width(), 100 * 64);
    assert_eq!(mc.columns.len(), 2);
    assert_eq!((mc.columns[0].start, mc.columns[0].end), (0, 60 * 64));
    let (x, y, _, _) = page.border_box(blocks[2]);
    assert_eq!((x, y), (100, 0));
}

#[test]
fn an_inline_split_across_a_column_break_reports_one_rect_per_column() {
    let (page, span, _) = two_column_text();
    let rects: Vec<(i64, i64)> = page
        .engine
        .client_rects(&page.dom, span)
        .into_iter()
        .map(|r| (r.x / 64, r.y / 64))
        .collect();
    // Four lines: two in each column.
    assert_eq!(rects, [(0, 0), (0, 20), (100, 0), (100, 20)]);
}

#[test]
fn hit_testing_descends_into_the_column_under_the_point() {
    let (page, m, root, blocks) = columns(20, 2, 30);
    let mc = page.engine.tree().box_(root).multicol.as_ref().unwrap();
    assert_eq!((mc.used_width(), mc.used_gap()), (90 * 64, 20 * 64));
    assert_eq!(mc.columns().len(), 2);
    // The second block shows in the second column, which starts at x = 110.
    assert_eq!(page.hit(120, 10), Some(blocks[1]));
    // A point in the gap hits the container, never its content.
    assert_eq!(page.hit(100, 10), Some(m));
}

#[test]
fn the_tall_flow_does_not_leak_into_scrollable_overflow() {
    // The flow is twice as tall as the container it is columnized into; if it contributed to
    // overflow, the *document* would be that tall.
    let (page, _, root) = two_column_text();
    let b = page.engine.tree().box_(root);
    let area = b.scrollable_overflow;
    assert_eq!(area.y + area.height, i64::from(b.final_layout.size.height));
    let html = page.dom.nodes[page.html].id;
    let (_, scroll_height) = page.engine.scroll_size(html).unwrap();
    assert_eq!(scroll_height, 600 * 64, "the viewport, not the un-columnized flow");
}

#[test]
fn points_of_the_flow_and_of_the_columns() {
    let (page, _, root, _) = columns(20, 2, 30);
    let mc = page.engine.tree().box_(root).multicol.as_ref().unwrap();
    assert_eq!(map_flow_point(mc, 10 * 64, 40 * 64), (120 * 64, 10 * 64));
    assert_eq!(unmap_content_point(mc, 120 * 64, 10 * 64), Some((10 * 64, 40 * 64)));
    assert_eq!(unmap_content_point(mc, 100 * 64, 10 * 64), None);
}
