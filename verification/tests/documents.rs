//! Box construction, list markers, inline content and incremental relayout, on documents that
//! are built by hand with the computed values that style resolution gives their elements.

use oxidepage_layout::assemble::{build_layout_tree, find_values, Built};
use oxidepage_layout::budget::{
    arm, check_deadline, checkpoint, classify, disarm, BudgetState, LayoutAborted, PanicPayload,
    UNLIMITED,
};
use oxidepage_layout::construct::{InlineSource, StyleOf, MAX_CONSTRUCT_DEPTH};
use oxidepage_layout::counter::{marker_text, CounterStyle, MarkerPosition};
use oxidepage_layout::dispatch::measure_replaced;
use oxidepage_layout::document::{
    ContentItem, ImageSource, InlineIcon, NodeStyles, PseudoStyle, StyleNames, Styled,
};
use oxidepage_layout::dom::{Attribute, DomNode, DomTree, NodeKind};
use oxidepage_layout::engine::{propagate_body_overflow, LayoutEngine, ReflowStart};
use oxidepage_layout::grid::{GridComponent, GridEdge, GridStyle, Repetition};
use oxidepage_layout::images::ImageStore;
use oxidepage_layout::inline_content::{content_owner, AtomicKind, InlineOp};
use oxidepage_layout::multicol::used_gap;
use oxidepage_layout::patch::{judge, Verdict};
use oxidepage_layout::positioning::containing_block;
use oxidepage_layout::sizing::{MaybeSize, Space, Spaces};
use oxidepage_layout::style::{
    ComputedStyle, CssDisplay, DisplayInside, DisplayOutside, LineHeight, TextCase,
};
use oxidepage_layout::svg::{
    inline_svg_key, sprite_definitions, sprite_references, svg_elements,
};
use oxidepage_layout::table::{build_table_context, FoundCell};
use oxidepage_layout::text::transform_text;
use oxidepage_layout::tree::{
    AlignKeyword, Alignment, BoxId, BoxKind, Clear, ColumnGap, CssPosition, Display, FlexWrap, Float, GridFlow, IfcData, NodeId, Overflow, Placement,
    PseudoBox, ReplacedContent, Viewport,
};
use oxidepage_layout::units::{Dimension, Size};

const VIEWPORT: Viewport = Viewport { width: 800 * 64, height: 600 * 64 };

const CENTER: Alignment = Alignment { keyword: AlignKeyword::Center, safe: false };

const IMAGE_URL: &str = "http://example.com/a.png";

/// The initial values: those of a node without any.
fn initial() -> ComputedStyle {
    let mut dom = DomTree::new();
    dom.push(DomNode {
        id: NodeId { index: 0, generation: 1 },
        kind: NodeKind::Element,
        html: true,
        local: "x".to_string(),
        attributes: Vec::new(),
        text: String::new(),
        parent: None,
        shadow_host: None,
        flat_parent: None,
        flat_children: Vec::new(),
    });
    let styles = vec![unstyled()];
    find_values(&Styled { dom, styles }, StyleOf::Element(0))
}

fn names(n: u64) -> StyleNames {
    StyleNames { all: n, font: 0, text: 0, list: 0, boxes: 0, before: None, after: None }
}

fn unstyled() -> NodeStyles {
    NodeStyles {
        primary: None,
        grid: GridStyle::initial(),
        names: names(0),
        before: None,
        after: None,
        counter: CounterStyle::Name("decimal".to_string()),
        marker: MarkerPosition::Outside,
        image: None,
        attr_width: None,
        attr_height: None,
        attr_rows: None,
        attr_cols: None,
    }
}

fn display(outside: DisplayOutside, inside: DisplayInside) -> CssDisplay {
    CssDisplay { outside, inside, list_item: false }
}

fn block() -> ComputedStyle {
    let mut s = initial();
    s.display = display(DisplayOutside::Block, DisplayInside::Flow);
    s
}

fn inline() -> ComputedStyle {
    initial()
}

fn list_item() -> ComputedStyle {
    let mut s = block();
    s.display.list_item = true;
    s
}

fn with_inside(inside: DisplayInside, taffy: Display) -> ComputedStyle {
    let mut s = block();
    s.display.inside = inside;
    s.box_style.display = taffy;
    s
}

struct Doc {
    styled: Styled,
    root: usize,
    body: usize,
}

impl Doc {
    fn new() -> Doc {
        let mut doc = Doc {
            styled: Styled { dom: DomTree::new(), styles: Vec::new() },
            root: 0,
            body: 0,
        };
        let document = doc.node(None, NodeKind::Document, "", "", None);
        doc.root = doc.node(Some(document), NodeKind::Element, "html", "", Some(block()));
        doc.body = doc.node(Some(doc.root), NodeKind::Element, "body", "", Some(block()));
        doc
    }

    fn node(
        &mut self,
        parent: Option<usize>,
        kind: NodeKind,
        local: &str,
        text: &str,
        style: Option<ComputedStyle>,
    ) -> usize {
        let i = self.styled.dom.nodes.len();
        let pushed = self.styled.dom.push(DomNode {
            id: NodeId { index: i as u32, generation: 1 },
            kind,
            html: true,
            local: local.to_string(),
            attributes: Vec::new(),
            text: text.to_string(),
            parent,
            shadow_host: None,
            flat_parent: parent,
            flat_children: Vec::new(),
        });
        assert_eq!(pushed, Some(i));
        let mut styles = unstyled();
        styles.primary = style;
        styles.names = names(i as u64);
        self.styled.styles.push(styles);
        i
    }

    fn el(&mut self, parent: usize, local: &str, style: ComputedStyle) -> usize {
        self.node(Some(parent), NodeKind::Element, local, "", Some(style))
    }

    fn text(&mut self, parent: usize, text: &str) -> usize {
        self.node(Some(parent), NodeKind::Text, "", text, None)
    }

    fn attr(&mut self, i: usize, name: &str, value: &str) {
        self.styled.dom.nodes[i]
            .attributes
            .push(Attribute { name: name.to_string(), value: value.to_string() });
    }

    fn id(&self, i: usize) -> NodeId {
        self.styled.dom.nodes[i].id
    }

    fn build(&self) -> Built {
        build_layout_tree(&self.styled, Some(self.root), VIEWPORT)
    }

    /// The box of a node, which has one.
    fn box_of(&self, built: &Built, i: usize) -> BoxId {
        built.tree.box_for_node(self.id(i)).expect("no box")
    }

    fn ops(&self, built: &Built, id: BoxId) -> Vec<InlineOp> {
        let b = built.tree.box_(id);
        let own = |node: NodeId| self.styled.dom.find(node).unwrap();
        let style = match (b.pseudo, b.dom_node) {
            (Some(PseudoBox::Before), Some(n)) => StyleOf::Before(own(n)),
            (Some(PseudoBox::After), Some(n)) => StyleOf::After(own(n)),
            (Some(PseudoBox::Marker), Some(n)) => StyleOf::Anonymous(own(n)),
            (None, Some(n)) => StyleOf::Element(own(n)),
            _ => StyleOf::Anonymous(own(built.tree.box_(b.parent.unwrap()).dom_node.unwrap())),
        };
        let items: Vec<usize> =
            built.items.iter().filter(|item| item.0 == id).map(|item| item.1).collect();
        self.styled.build_ifc(&built.tree, id, built.inline[id.0 as usize], style, &items)
    }

    /// The text of a box, without any collapsing of white space.
    fn text_of(&self, built: &Built, id: BoxId) -> String {
        let mut out = String::new();
        let pseudo = |which: PseudoBox, i: usize| match which {
            PseudoBox::Before => self.styled.styles[i].before.as_ref().unwrap().text(),
            _ => self.styled.styles[i].after.as_ref().unwrap().text(),
        };
        for op in self.ops(built, id) {
            match op {
                InlineOp::Text { node, case } => {
                    out.push_str(&transform_text(&self.styled.dom.nodes[node].text, case));
                }
                InlineOp::LineBreak => out.push('\n'),
                InlineOp::PseudoText { element, which, .. } => out.push_str(&pseudo(which, element)),
                InlineOp::MarkerText { element, ordinal } => out.push_str(
                    &marker_text(&self.styled.styles[element].counter, ordinal, true).unwrap(),
                ),
                InlineOp::OwnText => {
                    let b = built.tree.box_(id);
                    let i = self.styled.dom.find(b.dom_node.unwrap()).unwrap();
                    match built.inline[id.0 as usize] {
                        InlineSource::Marker(ordinal) => out.push_str(
                            &marker_text(&self.styled.styles[i].counter, ordinal, false).unwrap(),
                        ),
                        _ => out.push_str(&pseudo(b.pseudo.unwrap(), i)),
                    }
                }
                _ => {}
            }
        }
        out
    }

    fn marker_box(&self, built: &Built, i: usize) -> Option<BoxId> {
        let item = built.tree.box_for_node(self.id(i))?;
        built
            .tree
            .box_(item)
            .children
            .iter()
            .copied()
            .find(|&child| built.tree.box_(child).pseudo == Some(PseudoBox::Marker))
    }

    fn marker_string(&self, built: &Built, i: usize) -> Option<String> {
        let id = self.marker_box(built, i)?;
        Some(self.text_of(built, id))
    }

    /// A list with a counter style for its items.
    fn list(&mut self, parent: usize, tag: &str) -> usize {
        self.el(parent, tag, block())
    }

    fn item(&mut self, list: usize, counter: &str) -> usize {
        let li = self.el(list, "li", list_item());
        self.styled.styles[li].counter = CounterStyle::Name(counter.to_string());
        li
    }
}

fn generated(text: &str, style: ComputedStyle) -> PseudoStyle {
    PseudoStyle {
        style,
        grid: GridStyle::initial(),
        content: Some(vec![ContentItem::Text(text.to_string())]),
    }
}

// Construction.

#[test]
fn block_children_get_block_boxes() {
    let mut doc = Doc::new();
    doc.el(doc.body, "div", block());
    doc.el(doc.body, "div", block());
    let built = doc.build();
    let body = doc.box_of(&built, doc.body);
    let body_box = built.tree.box_(body);
    assert_eq!(body_box.kind, BoxKind::Block);
    assert_eq!(body_box.children.len(), 2);
    for &child in &body_box.children {
        assert_eq!(built.tree.box_(child).kind, BoxKind::Block);
        assert_eq!(built.tree.box_(child).parent, Some(body));
    }
}

#[test]
fn text_content_makes_inline_root_with_shaped_ifc() {
    let mut doc = Doc::new();
    let div = doc.el(doc.body, "div", block());
    doc.text(div, "hello world");
    let built = doc.build();
    let id = doc.box_of(&built, div);
    assert_eq!(built.tree.box_(id).kind, BoxKind::InlineRoot);
    assert_eq!(doc.text_of(&built, id), "hello world");
    assert!(built.tree.box_(id).children.is_empty(), "no atomic inline boxes");
}

#[test]
fn nested_inline_spans_are_contributors() {
    let mut doc = Doc::new();
    let div = doc.el(doc.body, "div", block());
    doc.text(div, "a");
    let span = doc.el(div, "span", inline());
    doc.text(span, "b");
    doc.text(div, "c");
    let built = doc.build();
    let id = doc.box_of(&built, div);
    assert_eq!(doc.text_of(&built, id), "abc");
    let contributors = doc.styled.contributors(&doc.ops(&built, id));
    assert!(contributors.contains(&doc.id(span)));
    // The span generates no box of its own.
    assert!(built.tree.box_for_node(doc.id(span)).is_none());
}

#[test]
fn mixed_content_gets_anonymous_block() {
    let mut doc = Doc::new();
    let outer = doc.el(doc.body, "div", block());
    doc.text(outer, "text");
    doc.el(outer, "div", block());
    let built = doc.build();
    let outer_box = built.tree.box_(doc.box_of(&built, outer));
    assert_eq!(outer_box.kind, BoxKind::Block);
    assert_eq!(outer_box.children.len(), 2);
    let anon = built.tree.box_(outer_box.children[0]);
    assert_eq!(anon.kind, BoxKind::AnonymousBlock);
    assert_eq!(anon.dom_node, None);
    assert_eq!(doc.text_of(&built, outer_box.children[0]), "text");
    assert_eq!(built.tree.box_(outer_box.children[1]).kind, BoxKind::Block);
}

#[test]
fn display_none_generates_no_box() {
    let mut doc = Doc::new();
    let mut hidden = block();
    hidden.display = display(DisplayOutside::Absent, DisplayInside::Absent);
    let div = doc.el(doc.body, "div", hidden);
    let p = doc.el(div, "p", block());
    doc.text(p, "x");
    let span = doc.el(doc.body, "span", inline());
    doc.text(span, "y");
    let built = doc.build();
    assert!(built.tree.box_for_node(doc.id(div)).is_none());
    assert!(built.tree.box_for_node(doc.id(p)).is_none());
}

#[test]
fn display_contents_hoists_children() {
    let mut doc = Doc::new();
    let mut contents = block();
    contents.display = display(DisplayOutside::Absent, DisplayInside::Contents);
    let host = doc.el(doc.body, "div", contents);
    for text in ["a", "b"] {
        let p = doc.el(host, "p", block());
        doc.text(p, text);
    }
    let built = doc.build();
    assert!(built.tree.box_for_node(doc.id(host)).is_none(), "contents: no box");
    let body = doc.box_of(&built, doc.body);
    assert_eq!(built.tree.box_(body).children.len(), 2);
}

#[test]
fn img_is_replaced_with_attr_sizes() {
    let mut doc = Doc::new();
    let img = doc.el(doc.body, "img", inline());
    doc.styled.styles[img].attr_width = Some(100 * 64);
    doc.styled.styles[img].attr_height = Some(50 * 64);
    let built = doc.build();
    let b = built.tree.box_(doc.box_of(&built, img));
    assert_eq!(b.kind, BoxKind::Replaced);
    match &b.replaced {
        Some(ReplacedContent::Image(ctx)) => {
            assert_eq!(ctx.attr_width, Some(100 * 64));
            assert_eq!(ctx.attr_height, Some(50 * 64));
        }
        other => panic!("expected image replaced content, got {other:?}"),
    }
}

#[test]
fn inline_with_block_descendant_is_block_child() {
    let mut doc = Doc::new();
    let container = doc.el(doc.body, "div", block());
    doc.text(container, "x");
    let span = doc.el(container, "span", inline());
    let p = doc.el(span, "p", block());
    doc.text(p, "inner");
    let built = doc.build();
    let b = built.tree.box_(doc.box_of(&built, container));
    assert_eq!(b.kind, BoxKind::Block);
    assert_eq!(b.children.len(), 2);
    assert_eq!(built.tree.box_(b.children[0]).kind, BoxKind::AnonymousBlock);
    assert_eq!(built.tree.box_for_node(doc.id(span)), Some(b.children[1]));
}

#[test]
fn atomic_inline_boxes_inside_ifc() {
    let mut doc = Doc::new();
    let div = doc.el(doc.body, "div", block());
    doc.text(div, "a");
    let mut inline_block = inline();
    inline_block.display = display(DisplayOutside::Inline, DisplayInside::FlowRoot);
    let atomic = doc.el(div, "span", inline_block);
    doc.text(atomic, "b");
    doc.text(div, "c");
    let built = doc.build();
    let id = doc.box_of(&built, div);
    let b = built.tree.box_(id);
    assert_eq!(b.kind, BoxKind::InlineRoot);
    // The atomic inline generates its own child box, with its own text.
    assert_eq!(b.children.len(), 1);
    assert_eq!(built.tree.box_(b.children[0]).kind, BoxKind::InlineRoot);
    // Its place in the content is kept for it.
    let places: Vec<InlineOp> = doc
        .ops(&built, id)
        .into_iter()
        .filter(|op| matches!(op, InlineOp::Atomic { .. }))
        .collect();
    assert_eq!(places, [InlineOp::Atomic { id: b.children[0], kind: AtomicKind::InFlow }]);
    assert_eq!(doc.text_of(&built, id), "ac");
}

#[test]
fn whitespace_between_blocks_is_dropped() {
    let mut doc = Doc::new();
    let div = doc.el(doc.body, "div", block());
    doc.text(div, "  ");
    let p = doc.el(div, "p", block());
    doc.text(p, "a");
    doc.text(div, "\n  ");
    let p = doc.el(div, "p", block());
    doc.text(p, "b");
    doc.text(div, "  ");
    let built = doc.build();
    let b = built.tree.box_(doc.box_of(&built, div));
    assert_eq!(b.kind, BoxKind::Block);
    assert_eq!(b.children.len(), 2, "whitespace runs are not wrapped");
}

#[test]
fn flex_container_wraps_text_in_anonymous_item() {
    let mut doc = Doc::new();
    let flex = doc.el(doc.body, "div", with_inside(DisplayInside::Flex, Display::Flex));
    doc.text(flex, "text");
    // The items of a flex container are blockified.
    let span = doc.el(flex, "span", block());
    doc.text(span, "item");
    let built = doc.build();
    let b = built.tree.box_(doc.box_of(&built, flex));
    assert_eq!(b.children.len(), 2);
    assert_eq!(built.tree.box_(b.children[0]).kind, BoxKind::AnonymousBlock);
    assert_eq!(built.tree.box_for_node(doc.id(span)), Some(b.children[1]));
    assert_eq!(built.tree.box_(b.children[1]).kind, BoxKind::InlineRoot);
}

#[test]
fn br_contributes_newline() {
    let mut doc = Doc::new();
    let div = doc.el(doc.body, "div", block());
    doc.text(div, "a");
    doc.el(div, "br", inline());
    doc.text(div, "b");
    let built = doc.build();
    let id = doc.box_of(&built, div);
    assert_eq!(doc.text_of(&built, id), "a\nb");
    assert!(built.tree.box_(id).children.is_empty());
}

#[test]
fn text_input_is_replaced_leaf() {
    let mut doc = Doc::new();
    let div = doc.el(doc.body, "div", block());
    let mut inline_block = inline();
    inline_block.display = display(DisplayOutside::Inline, DisplayInside::FlowRoot);
    let input = doc.el(div, "input", inline_block);
    doc.attr(input, "type", "text");
    let built = doc.build();
    let b = built.tree.box_(doc.box_of(&built, input));
    match b.replaced {
        Some(ReplacedContent::TextInput { multiline, .. }) => assert!(!multiline),
        ref other => panic!("expected text input, got {other:?}"),
    }
    assert_eq!(b.kind, BoxKind::Replaced);
}

#[test]
fn hidden_input_generates_no_box() {
    let mut doc = Doc::new();
    let div = doc.el(doc.body, "div", block());
    let input = doc.el(div, "input", inline());
    doc.attr(input, "type", "hidden");
    let built = doc.build();
    assert!(built.tree.box_for_node(doc.id(input)).is_none());
}

#[test]
fn before_pseudo_in_inline_context_prepends_text() {
    let mut doc = Doc::new();
    let div = doc.el(doc.body, "div", block());
    doc.text(div, "mid");
    doc.styled.styles[div].before = Some(generated("AB", inline()));
    doc.styled.styles[div].after = Some(generated("YZ", inline()));
    let built = doc.build();
    let id = doc.box_of(&built, div);
    assert_eq!(built.tree.box_(id).kind, BoxKind::InlineRoot);
    assert_eq!(doc.text_of(&built, id), "ABmidYZ");
}

#[test]
fn pseudo_boxes_flank_block_children() {
    let mut doc = Doc::new();
    let container = doc.el(doc.body, "div", block());
    let p = doc.el(container, "p", block());
    doc.text(p, "block");
    doc.styled.styles[container].before = Some(generated("B", inline()));
    doc.styled.styles[container].after = Some(generated("A", inline()));
    let built = doc.build();
    let id = doc.box_of(&built, container);
    let b = built.tree.box_(id);
    assert_eq!(b.children.len(), 3);
    let before = built.tree.box_(b.children[0]);
    assert_eq!(before.pseudo, Some(PseudoBox::Before));
    assert_eq!(before.dom_node, Some(doc.id(container)));
    assert_eq!(doc.text_of(&built, b.children[0]), "B");
    let after = built.tree.box_(b.children[2]);
    assert_eq!(after.pseudo, Some(PseudoBox::After));
    assert_eq!(doc.text_of(&built, b.children[2]), "A");
    // Pseudo boxes must not shadow the owner's principal box in the map.
    assert_eq!(built.tree.box_for_node(doc.id(container)), Some(id));
}

#[test]
fn text_transform_capitalize_uppercases_word_starts() {
    let mut doc = Doc::new();
    let mut capitalize = block();
    capitalize.text_case = TextCase::Capitalize;
    let div = doc.el(doc.body, "div", capitalize);
    doc.text(div, "hello brave world");
    let built = doc.build();
    let id = doc.box_of(&built, div);
    assert_eq!(doc.text_of(&built, id), "Hello Brave World");
}

#[test]
fn inline_canvas_is_atomic_replaced_box() {
    let mut doc = Doc::new();
    let p = doc.el(doc.body, "p", block());
    doc.text(p, "x");
    let canvas = doc.el(p, "canvas", inline());
    doc.styled.styles[canvas].attr_width = Some(100 * 64);
    doc.styled.styles[canvas].attr_height = Some(50 * 64);
    let built = doc.build();
    let id = doc.box_of(&built, p);
    assert_eq!(built.tree.box_(id).kind, BoxKind::InlineRoot);
    let canvas = doc.box_of(&built, canvas);
    let b = built.tree.box_(canvas);
    assert_eq!(b.kind, BoxKind::Replaced);
    assert_eq!(b.parent, Some(id));
    let open = MaybeSize { width: None, height: None };
    let space = Spaces { width: Space::MaxContent, height: Space::MaxContent };
    let size = measure_replaced(&built.tree, canvas, open, open, space);
    assert_eq!((size.width, size.height), (100 * 64, 50 * 64));
    // It stands behind the glyph.
    let ops = doc.ops(&built, id);
    let text = ops.iter().position(|op| matches!(op, InlineOp::Text { .. })).unwrap();
    let place = ops.iter().position(|op| matches!(op, InlineOp::Atomic { .. })).unwrap();
    assert!(text < place);
}

#[test]
fn textarea_negative_rows_clamps_to_default() {
    let mut doc = Doc::new();
    let mut inline_block = inline();
    inline_block.display = display(DisplayOutside::Inline, DisplayInside::FlowRoot);
    let area = doc.el(doc.body, "textarea", inline_block);
    doc.styled.styles[area].attr_rows = Some(-3_000_000);
    match doc.styled.replaced_content_for(area) {
        Some(ReplacedContent::TextInput { rows, multiline, .. }) => {
            assert!(multiline);
            assert_eq!(rows, 2_000_000);
        }
        other => panic!("expected a text control, got {other:?}"),
    }
}

#[test]
fn rows_and_columns_may_be_fractions() {
    let mut doc = Doc::new();
    let area = doc.el(doc.body, "textarea", inline());
    doc.styled.styles[area].attr_rows = Some(2_500_000);
    doc.styled.styles[area].attr_cols = Some(999_999);
    match doc.styled.replaced_content_for(area) {
        Some(ReplacedContent::TextInput { rows, cols, .. }) => {
            assert_eq!(rows, 2_500_000);
            assert_eq!(cols, None);
        }
        other => panic!("expected a text control, got {other:?}"),
    }
}

#[test]
fn spans_without_a_style_are_as_high_as_the_shaper_makes_them() {
    let mut doc = Doc::new();
    let p = doc.el(doc.body, "p", block());
    doc.styled.styles[p].primary.as_mut().unwrap().line_height = LineHeight::Length(64);
    let span = doc.node(Some(p), NodeKind::Element, "span", "", None);
    doc.text(span, "x");
    let built = doc.build();
    let ops = doc.ops(&built, doc.box_of(&built, p));
    assert!(ops.contains(&InlineOp::OpenSpan { node: span, line_height: 1024 }));
    // In a root with higher lines it is as high as they are.
    doc.styled.styles[p].primary.as_mut().unwrap().line_height = LineHeight::Length(2000);
    let built = doc.build();
    let ops = doc.ops(&built, doc.box_of(&built, p));
    assert!(ops.contains(&InlineOp::OpenSpan { node: span, line_height: 2000 }));
}

#[test]
fn table_root_box_kind_and_row_has_no_box() {
    let mut doc = Doc::new();
    let (table, row, cells) = small_table(&mut doc);
    let built = doc.build();
    assert_eq!(built.tree.box_(doc.box_of(&built, table)).kind, BoxKind::TableRoot);
    assert!(built.tree.box_for_node(doc.id(row)).is_none());
    for cell in cells {
        assert!(built.tree.box_for_node(doc.id(cell)).is_some());
    }
}

/// A table with one row of two cells.
fn small_table(doc: &mut Doc) -> (usize, usize, Vec<usize>) {
    let table = doc.el(doc.body, "table", with_inside(DisplayInside::Table, Display::Grid));
    let mut row_style = block();
    row_style.display = display(DisplayOutside::InternalTable, DisplayInside::TableRow);
    let row = doc.el(table, "tr", row_style);
    let mut cell_style = block();
    cell_style.display = display(DisplayOutside::InternalTable, DisplayInside::TableCell);
    let mut cells = Vec::new();
    for text in ["a", "b"] {
        let cell = doc.el(row, "td", cell_style);
        doc.text(cell, text);
        cells.push(cell);
    }
    (table, row, cells)
}

#[test]
fn table_colspan_spans_tracks() {
    let mut doc = Doc::new();
    let table = doc.el(doc.body, "table", with_inside(DisplayInside::Table, Display::Grid));
    let mut row_style = block();
    row_style.display = display(DisplayOutside::InternalTable, DisplayInside::TableRow);
    let mut cell_style = block();
    cell_style.display = display(DisplayOutside::InternalTable, DisplayInside::TableCell);
    let first = doc.el(table, "tr", row_style);
    let wide = doc.el(first, "td", cell_style);
    doc.attr(wide, "colspan", "2");
    let second = doc.el(table, "tr", row_style);
    doc.el(second, "td", cell_style);
    doc.el(second, "td", cell_style);
    let built = doc.build();
    let id = doc.box_of(&built, table);
    let places: Vec<(u32, u16)> =
        built.cells.iter().map(|(_, place)| (place.row, place.colspan)).collect();
    assert_eq!(places, [(1, 2), (2, 1), (2, 1)]);
    assert_eq!(built.rows, vec![(id, 2)]);
    let found: Vec<FoundCell> = built
        .cells
        .iter()
        .map(|(cell, place)| FoundCell { id: *cell, place: *place, style: cell_style })
        .collect();
    let ctx = build_table_context(&doc.styled.styles[table].primary.unwrap(), &found, 2);
    // The spanning cell covers both columns.
    assert_eq!(ctx.columns.len(), 2);
    assert_eq!(ctx.cells.len(), 3);
}

#[test]
fn huge_colspan_does_not_overflow_or_panic() {
    let mut doc = Doc::new();
    let (_, _, cells) = small_table(&mut doc);
    doc.attr(cells[0], "colspan", "40000");
    doc.attr(cells[1], "colspan", "40000");
    let built = doc.build();
    for (_, place) in &built.cells {
        assert_eq!(place.colspan, 1000);
    }
}

#[test]
fn deeply_nested_dom_construction_depth_is_capped() {
    let mut doc = Doc::new();
    let mut at = doc.body;
    let mut divs = Vec::new();
    for _ in 0..4000 {
        at = doc.el(at, "div", block());
        divs.push(at);
    }
    let built = doc.build();
    assert!(built.tree.box_for_node(doc.id(divs[0])).is_some());
    assert!(built.tree.box_for_node(doc.id(at)).is_none());
    let count = built.tree.box_count();
    assert!(
        (256..512).contains(&count),
        "construction depth must be capped near {MAX_CONSTRUCT_DEPTH}, got {count} boxes"
    );
}

#[test]
fn multicol_wraps_its_content_in_an_anonymous_flow_box() {
    let mut doc = Doc::new();
    let mut columns = block();
    columns.multicol.count = Some(2);
    let div = doc.el(doc.body, "div", columns);
    doc.text(div, "XXXXX XXXXX XXXXX XXXXX");
    let built = doc.build();
    let id = doc.box_of(&built, div);
    let root = built.tree.box_(id);
    assert_eq!(root.kind, BoxKind::MulticolRoot);
    assert_eq!(root.children.len(), 1, "exactly one anonymous flow child");
    // The flow is anonymous, so the element still maps to its *root* box.
    let flow = root.children[0];
    assert_eq!(built.tree.box_(flow).dom_node, None);
    assert_eq!(root.multicol.as_ref().unwrap().flow(), flow);
    assert_eq!(built.tree.multicol_root_of_flow(flow), Some(id));
    assert_eq!(doc.text_of(&built, flow), "XXXXX XXXXX XXXXX XXXXX");
}

#[test]
fn order_sorts_the_children_of_a_flex_container() {
    let mut doc = Doc::new();
    let flex = doc.el(doc.body, "div", with_inside(DisplayInside::Flex, Display::Flex));
    let mut late = block();
    late.order = 3;
    let mut early = block();
    early.order = 2;
    let x = doc.el(flex, "div", late);
    let y = doc.el(flex, "div", early);
    let z = doc.el(flex, "div", late);
    let built = doc.build();
    let b = built.tree.box_(doc.box_of(&built, flex));
    let order: Vec<Option<NodeId>> =
        b.children.iter().map(|&c| built.tree.box_(c).dom_node).collect();
    assert_eq!(order, [Some(doc.id(y)), Some(doc.id(x)), Some(doc.id(z))]);
}

#[test]
fn clearing_content_after_a_float_isolates_it() {
    // A float, and generated content that clears it.
    let mut doc = Doc::new();
    let div = doc.el(doc.body, "div", block());
    let mut float = block();
    float.float = Float::Left;
    float.box_style.float = Float::Left;
    doc.el(div, "div", float);
    let mut clear = block();
    clear.box_style.clear = Clear::Both;
    doc.styled.styles[div].after = Some(generated("", clear));
    let built = doc.build();
    assert!(built.tree.box_(doc.box_of(&built, div)).force_bfc);
    assert!(!built.tree.box_(doc.box_of(&built, doc.body)).force_bfc);
}

// Images.

#[test]
fn intrinsic_size_and_data_come_from_the_store() {
    let mut doc = Doc::new();
    let img = doc.el(doc.body, "img", inline());
    doc.attr(img, "src", IMAGE_URL);
    let mut images = ImageStore::new();
    images.insert_raster(IMAGE_URL.to_string(), 40, 20, std::sync::Arc::new(vec![0; 3200]));
    let url = match doc.styled.image_source(img) {
        ImageSource::Url(url) => Some(url),
        _ => panic!("the image comes from a URL"),
    };
    let data = doc.styled.image_data(img, &url, &None, &images).expect("decoded image attached");
    assert_eq!((data.width, data.height), (40, 20));
    doc.styled.attach_image(img, &url, &None, &images);
    match doc.styled.replaced_content_for(img) {
        Some(ReplacedContent::Image(ctx)) => {
            assert_eq!(ctx.inherent_size, Size { width: 40 * 64, height: 20 * 64 });
            assert_eq!(ctx.image, Some(data.id.0));
        }
        other => panic!("expected an image, got {other:?}"),
    }
    // A source that does not resolve has no image.
    assert!(doc.styled.image_data(img, &None, &None, &images).is_none());
}

#[test]
fn inline_icons_are_found_by_their_keys() {
    let mut doc = Doc::new();
    let svg = doc.el(doc.body, "svg", inline());
    let icon = |red: u8| {
        Some(InlineIcon {
            markup: "<svg></svg>".to_string(),
            color: [red, 0, 0, 255],
            vars: Vec::new(),
        })
    };
    let mut images = ImageStore::new();
    let key = inline_svg_key("<svg></svg>", [9, 0, 0, 255], &[]);
    images.insert_vector(key, 24, 12, std::sync::Arc::new(Vec::new()));
    doc.styled.attach_image(svg, &None, &icon(9), &images);
    let size = Size { width: 24 * 64, height: 12 * 64 };
    assert_eq!(doc.styled.styles[svg].image, Some((size, 1)));
    // In another color it is another image, which is not there.
    doc.styled.attach_image(svg, &None, &icon(10), &images);
    assert_eq!(doc.styled.styles[svg].image, None);
    doc.styled.attach_image(svg, &None, &None, &images);
    assert_eq!(doc.styled.styles[svg].image, None);
}

#[test]
fn sprites_come_from_the_same_document() {
    let mut doc = Doc::new();
    let sprite = doc.el(doc.body, "svg", inline());
    let symbol = doc.el(sprite, "symbol", inline());
    doc.attr(symbol, "id", "a");
    let outer = doc.el(doc.body, "div", block());
    doc.attr(outer, "id", "b");
    let icon = doc.el(outer, "svg", inline());
    doc.attr(icon, "id", "c");
    let reference = doc.el(icon, "use", inline());
    doc.attr(reference, "href", "#a");
    let second = doc.el(doc.body, "symbol", inline());
    doc.attr(second, "id", "a");
    let dom = &doc.styled.dom;
    let ids = |list: &[&str]| list.iter().map(|s| s.to_string()).collect::<Vec<String>>();
    let elements = svg_elements(dom, icon);
    assert_eq!(elements.len(), 2);
    assert_eq!(elements[1].name, "use");
    let wanted = sprite_references(&elements);
    assert_eq!(wanted, ids(&["a"]));
    // The first element of that id is the definition.
    assert_eq!(sprite_definitions(dom, icon, &wanted), vec![symbol]);
    // Neither the icon nor what it lies in is inlined, nor what is not there.
    assert_eq!(sprite_definitions(dom, icon, &ids(&["b", "c", "d", "a"])), vec![symbol]);
    assert_eq!(dom.containing_document(icon), Some(0));
    assert_eq!(dom.element_by_id(0, "b"), Some(outer));
    assert_eq!(dom.element_by_id(icon, "b"), None);
}

#[test]
fn boxes_carry_limited_grids() {
    let mut doc = Doc::new();
    let grid = doc.el(doc.body, "div", with_inside(DisplayInside::Grid, Display::Grid));
    let item = doc.el(grid, "i", block());
    let huge = |count: u32| {
        vec![GridComponent::Repeat { count: Repetition::Times(count), tracks: vec![0], names: 0 }]
    };
    doc.styled.styles[grid].grid.columns = huge(70000);
    doc.styled.styles[item].grid.column.end = GridEdge::Line(100000);
    let mut engine = LayoutEngine::new(VIEWPORT);
    install(&mut engine, &doc, 1);
    let grid_id = doc.id(grid);
    let count = |engine: &LayoutEngine| {
        let id = engine.tree().box_for_node(grid_id).unwrap();
        match engine.tree().box_(id).grid.columns[0] {
            GridComponent::Repeat { count, .. } => count,
            GridComponent::Single(_) => panic!("a repetition"),
        }
    };
    assert_eq!(count(&engine), Repetition::Times(1000));
    let id = engine.tree().box_for_node(doc.id(item)).unwrap();
    assert_eq!(engine.tree().box_(id).grid.column.end, GridEdge::Line(1001));
    // A template that changes within the limit is patched in.
    for b in &mut engine.tree.boxes {
        b.stale = false;
    }
    doc.styled.styles[grid].grid.columns = huge(3);
    doc.styled.styles[grid].names.all += 1000;
    assert!(engine.try_patch(&doc.styled, 1, &vec![doc.id(grid)]));
    assert_eq!(count(&engine), Repetition::Times(3));
    let id = engine.tree().box_for_node(doc.id(grid)).unwrap();
    assert!(engine.tree().box_(id).stale);
    // Another one that comes to the same does not ask for layout.
    for b in &mut engine.tree.boxes {
        b.stale = false;
    }
    doc.styled.styles[grid].names.all += 1000;
    assert!(engine.try_patch(&doc.styled, 1, &vec![doc.id(grid)]));
    assert!(!engine.tree().box_(id).stale);
}

#[test]
fn attribute_sizes_are_captured() {
    let mut doc = Doc::new();
    let img = doc.el(doc.body, "img", inline());
    doc.styled.styles[img].attr_width = Some(100 * 64);
    doc.styled.styles[img].attr_height = Some(50 * 64);
    doc.styled.styles[img].image = Some((Size { width: 40 * 64, height: 20 * 64 }, 1));
    match doc.styled.replaced_content_for(img) {
        Some(ReplacedContent::Image(ctx)) => {
            assert_eq!(ctx.attr_width, Some(100 * 64));
            assert_eq!(ctx.attr_height, Some(50 * 64));
            // The intrinsic size (from the store) is still available for aspect ratio.
            assert_eq!(ctx.inherent_size.width, 40 * 64);
        }
        other => panic!("expected an image, got {other:?}"),
    }
}

#[test]
fn missing_image_has_zero_intrinsic_and_no_data() {
    let mut doc = Doc::new();
    let img = doc.el(doc.body, "img", inline());
    doc.attr(img, "src", "http://example.com/missing.png");
    assert!(matches!(
        doc.styled.image_source(img),
        ImageSource::Url(url) if ImageStore::new().get(&url).is_none()
    ));
    match doc.styled.replaced_content_for(img) {
        Some(ReplacedContent::Image(ctx)) => {
            assert_eq!(ctx.inherent_size, Size { width: 0, height: 0 });
            assert_eq!(ctx.image, None);
        }
        other => panic!("expected an image, got {other:?}"),
    }
    let bare = doc.el(doc.body, "img", inline());
    assert!(matches!(doc.styled.image_source(bare), ImageSource::Absent));
    let svg = doc.el(doc.body, "svg", inline());
    assert!(matches!(doc.styled.image_source(svg), ImageSource::Inline));
}

// List markers.

#[test]
fn ul_and_ol_get_their_default_markers() {
    let mut doc = Doc::new();
    let ul = doc.list(doc.body, "ul");
    let a = doc.item(ul, "disc");
    doc.text(a, "alpha");
    let ol = doc.list(doc.body, "ol");
    let b = doc.item(ol, "decimal");
    doc.text(b, "one");
    let built = doc.build();
    assert_eq!(doc.marker_string(&built, a).as_deref(), Some("\u{2022}"));
    assert_eq!(doc.marker_string(&built, b).as_deref(), Some("1."));
}

#[test]
fn nested_uls_cycle_disc_circle_square() {
    let mut doc = Doc::new();
    let mut parent = doc.body;
    let mut items = Vec::new();
    for style in ["disc", "circle", "square", "square"] {
        let ul = doc.list(parent, "ul");
        parent = doc.item(ul, style);
        doc.text(parent, "x");
        items.push(parent);
    }
    let built = doc.build();
    let of = |k: usize| doc.marker_string(&built, items[k]).unwrap();
    assert_eq!(of(0), "\u{2022}", "disc");
    assert_eq!(of(1), "\u{25e6}", "circle");
    assert_eq!(of(2), "\u{25aa}", "square");
    assert_eq!(of(3), "\u{25aa}", "square");
}

#[test]
fn list_style_type_none_generates_no_marker() {
    let mut doc = Doc::new();
    let ul = doc.list(doc.body, "ul");
    let a = doc.item(ul, "disc");
    doc.styled.styles[a].counter = CounterStyle::Unmarked;
    doc.text(a, "alpha");
    let built = doc.build();
    assert!(doc.marker_box(&built, a).is_none());
    assert_eq!(doc.text_of(&built, doc.box_of(&built, a)), "alpha");
}

#[test]
fn counter_styles_render_their_representations() {
    let case = |style: &dyn Fn() -> CounterStyle| {
        let mut doc = Doc::new();
        let ol = doc.list(doc.body, "ol");
        let mut items = Vec::new();
        for _ in 0..5 {
            let li = doc.item(ol, "decimal");
            doc.styled.styles[li].counter = style();
            items.push(li);
        }
        let built = doc.build();
        let strings: Vec<String> =
            items.iter().map(|&li| doc.marker_string(&built, li).unwrap_or_default()).collect();
        strings
    };
    let named = |name: &'static str| case(&move || CounterStyle::Name(name.to_string()));
    assert_eq!(named("decimal"), ["1.", "2.", "3.", "4.", "5."]);
    assert_eq!(named("decimal-leading-zero"), ["01.", "02.", "03.", "04.", "05."]);
    assert_eq!(named("lower-alpha"), ["a.", "b.", "c.", "d.", "e."]);
    assert_eq!(named("upper-alpha"), ["A.", "B.", "C.", "D.", "E."]);
    assert_eq!(named("lower-roman"), ["i.", "ii.", "iii.", "iv.", "v."]);
    assert_eq!(named("upper-roman"), ["I.", "II.", "III.", "IV.", "V."]);
    assert_eq!(named("square"), ["\u{25aa}"; 5]);
    assert_eq!(named("hebrew"), ["1.", "2.", "3.", "4.", "5."]);
    assert_eq!(case(&|| CounterStyle::Text("->".to_string())), ["->"; 5]);
}

/// The markers of an ordered list with so many items, after `change`.
fn ordered(items: usize, change: &dyn Fn(&mut Doc, usize, &[usize])) -> Vec<String> {
    let mut doc = Doc::new();
    let ol = doc.list(doc.body, "ol");
    let list: Vec<usize> = (0..items).map(|_| doc.item(ol, "decimal")).collect();
    change(&mut doc, ol, &list);
    let built = doc.build();
    list.iter().map(|&li| doc.marker_string(&built, li).unwrap()).collect()
}

#[test]
fn ol_start_offsets_the_first_ordinal() {
    assert_eq!(ordered(2, &|doc, ol, _| doc.attr(ol, "start", "8")), ["8.", "9."]);
}

#[test]
fn li_value_resets_the_running_counter() {
    assert_eq!(
        ordered(3, &|doc, _, items| doc.attr(items[1], "value", "20")),
        ["1.", "20.", "21."]
    );
}

#[test]
fn ol_reversed_counts_down_from_the_item_count() {
    assert_eq!(ordered(3, &|doc, ol, _| doc.attr(ol, "reversed", "")), ["3.", "2.", "1."]);
    assert_eq!(
        ordered(2, &|doc, ol, _| {
            doc.attr(ol, "reversed", "");
            doc.attr(ol, "start", "5");
        }),
        ["5.", "4."]
    );
}

#[test]
fn nested_ol_restarts_numbering() {
    let mut doc = Doc::new();
    let outer = doc.list(doc.body, "ol");
    let a = doc.item(outer, "decimal");
    doc.text(a, "a");
    let inner = doc.list(a, "ol");
    let b = doc.item(inner, "decimal");
    doc.text(b, "b");
    let c = doc.item(inner, "decimal");
    doc.text(c, "c");
    let d = doc.item(outer, "decimal");
    doc.text(d, "d");
    let built = doc.build();
    let of = |i: usize| doc.marker_string(&built, i).unwrap();
    assert_eq!(of(a), "1.");
    assert_eq!(of(b), "1.", "the nested list restarts");
    assert_eq!(of(c), "2.");
    assert_eq!(of(d), "2.", "the outer list is unaffected by the nesting");
}

#[test]
fn inside_marker_is_the_items_first_inline_content() {
    let mut doc = Doc::new();
    let ul = doc.list(doc.body, "ul");
    let a = doc.item(ul, "disc");
    doc.styled.styles[a].marker = MarkerPosition::Inside;
    doc.text(a, "alpha");
    let ol = doc.list(doc.body, "ol");
    let b = doc.item(ol, "decimal");
    doc.styled.styles[b].marker = MarkerPosition::Inside;
    doc.text(b, "one");
    let built = doc.build();
    assert!(doc.marker_box(&built, a).is_none());
    assert!(doc.marker_box(&built, b).is_none());
    assert_eq!(doc.text_of(&built, doc.box_of(&built, a)), "\u{2022} alpha");
    assert_eq!(doc.text_of(&built, doc.box_of(&built, b)), "1. one");
}

#[test]
fn list_items_in_other_container_kinds_still_get_markers() {
    let mut doc = Doc::new();
    let ul = doc.list(doc.body, "ul");
    let inline_item = doc.item(ul, "disc");
    doc.text(inline_item, "plain text");
    let block_item = doc.item(ul, "disc");
    let p = doc.el(block_item, "p", block());
    doc.text(p, "a block child");
    let flex_item = doc.item(ul, "disc");
    let mut flex = with_inside(DisplayInside::Flex, Display::Flex);
    flex.display.list_item = true;
    doc.styled.styles[flex_item].primary = Some(flex);
    doc.el(flex_item, "span", block());
    let grid_item = doc.item(ul, "disc");
    let mut grid = with_inside(DisplayInside::Grid, Display::Grid);
    grid.display.list_item = true;
    doc.styled.styles[grid_item].primary = Some(grid);
    doc.el(grid_item, "span", block());
    let empty = doc.item(ul, "disc");
    let built = doc.build();
    for li in [inline_item, block_item, flex_item, grid_item, empty] {
        let marker = doc.marker_box(&built, li).expect("the item generated no marker box");
        assert!(built.tree.box_(marker).is_outside_marker());
    }
}

// Reflow.

/// Gives every inline root of the tree what contributes to it, as shaping does.
fn shape(doc: &Doc, built: &mut Built) {
    for n in 0..built.tree.box_count() {
        let id = BoxId(n as u32);
        if built.inline[n] != InlineSource::Nothing {
            let ops = doc.ops(built, id);
            let contributors = doc.styled.contributors(&ops);
            let text = doc.text_of(built, id);
            built.tree.boxes[n].ifc = Some(IfcData { lines: Vec::new(), text, contributors });
        }
    }
}

fn install(engine: &mut LayoutEngine, doc: &Doc, structure: u64) {
    let mut built = doc.build();
    shape(doc, &mut built);
    engine.install(built.tree, &doc.styled, structure);
}

/// Gives an element other computed values.
fn restyle(doc: &mut Doc, i: usize, style: ComputedStyle) {
    doc.styled.styles[i].primary = Some(style);
    doc.styled.styles[i].names.all += 1000;
}

/// A block of the given size.
fn sized(width: i32, height: i32) -> ComputedStyle {
    let mut style = block();
    style.box_style.size.width = Dimension::Length(width * 64);
    style.box_style.size.height = Dimension::Length(height * 64);
    style
}

#[test]
fn incremental_patch_applies_inline_size_change() {
    let mut doc = Doc::new();
    let a = doc.el(doc.body, "div", sized(100, 10));
    doc.el(doc.body, "div", sized(50, 10));
    let mut engine = LayoutEngine::new(VIEWPORT);
    install(&mut engine, &doc, 1);
    assert_eq!(engine.reflow_counts(), (1, 0));
    let boxes_before = engine.tree().box_count();
    restyle(&mut doc, a, sized(140, 25));
    assert!(engine.try_patch(&doc.styled, 1, &vec![doc.id(a)]));
    assert_eq!(engine.tree().box_count(), boxes_before);
    assert_eq!(engine.reflow_counts(), (1, 1), "patch path must be taken");
    let id = engine.tree().box_for_node(doc.id(a)).unwrap();
    let size = engine.tree().box_(id).style.size;
    assert_eq!(
        (size.width, size.height),
        (Dimension::Length(140 * 64), Dimension::Length(25 * 64))
    );
    // What was cached for the box and for those around it is out of date.
    let mut up = Some(id);
    while let Some(b) = up {
        assert!(engine.tree().box_(b).stale);
        up = engine.tree().box_(b).parent;
    }
    // The same style again asks for nothing.
    let snapshot = engine.snapshot.as_ref().unwrap();
    assert_eq!(judge(engine.tree(), snapshot, &doc.styled, doc.id(a)), Verdict::Keep);
}

#[test]
fn incremental_patch_bails_on_display_change() {
    let mut doc = Doc::new();
    let div = doc.el(doc.body, "div", sized(100, 10));
    doc.el(doc.body, "div", block());
    let mut engine = LayoutEngine::new(VIEWPORT);
    install(&mut engine, &doc, 1);
    let mut hidden = block();
    hidden.display = display(DisplayOutside::Absent, DisplayInside::Absent);
    restyle(&mut doc, div, hidden);
    assert!(!engine.try_patch(&doc.styled, 1, &vec![doc.id(div)]));
    install(&mut engine, &doc, 1);
    assert_eq!(engine.reflow_counts(), (2, 0), "display change must rebuild");
    assert!(engine.tree().box_for_node(doc.id(div)).is_none());
}

#[test]
fn structural_change_still_rebuilds() {
    let mut doc = Doc::new();
    let host = doc.el(doc.body, "div", block());
    let mut engine = LayoutEngine::new(VIEWPORT);
    install(&mut engine, &doc, 1);
    let child = doc.el(host, "div", sized(30, 40));
    assert!(!engine.try_patch(&doc.styled, 2, &Vec::new()));
    install(&mut engine, &doc, 2);
    let id = engine.tree().box_for_node(doc.id(child)).expect("new box");
    let size = engine.tree().box_(id).style.size;
    assert_eq!(
        (size.width, size.height),
        (Dimension::Length(30 * 64), Dimension::Length(40 * 64))
    );
}

#[test]
fn incremental_patch_only_visits_restyled_elements() {
    let mut doc = Doc::new();
    let mut divs = Vec::new();
    for _ in 0..200 {
        divs.push(doc.el(doc.body, "div", sized(10, 10)));
    }
    let mut engine = LayoutEngine::new(VIEWPORT);
    install(&mut engine, &doc, 1);
    restyle(&mut doc, divs[7], sized(40, 25));
    // A node that is not reported is not visited.
    restyle(&mut doc, divs[8], sized(40, 25));
    assert!(engine.try_patch(&doc.styled, 1, &vec![doc.id(divs[7])]));
    assert_eq!(engine.reflow_counts(), (1, 1), "patch path must be taken");
    let size = |i: usize| {
        engine.tree().box_(engine.tree().box_for_node(doc.id(divs[i])).unwrap()).style.size
    };
    assert_eq!(size(7).width, Dimension::Length(40 * 64));
    assert_eq!(size(7).height, Dimension::Length(25 * 64));
    assert_eq!(size(8).width, Dimension::Length(10 * 64));
}

#[test]
fn incremental_patch_reshapes_anonymous_block_text_on_font_size_change() {
    let mut doc = Doc::new();
    let div = doc.el(doc.body, "div", block());
    doc.text(div, "AAAAA");
    doc.el(div, "div", block());
    doc.text(div, "BBBBB");
    let mut engine = LayoutEngine::new(VIEWPORT);
    install(&mut engine, &doc, 1);
    let mut large = block();
    large.font_size = 40 * 64;
    restyle(&mut doc, div, large);
    doc.styled.styles[div].names.font = 7;
    assert!(!engine.try_patch(&doc.styled, 1, &vec![doc.id(div)]));
    install(&mut engine, &doc, 1);
    assert_eq!(
        engine.reflow_counts(),
        (2, 0),
        "font-size change on an anon-block container rebuilds"
    );
}

#[test]
fn incremental_patch_reshapes_flex_text_run_on_font_size_change() {
    let mut doc = Doc::new();
    let flex = with_inside(DisplayInside::Flex, Display::Flex);
    let div = doc.el(doc.body, "div", flex);
    doc.text(div, "AAAAA");
    let mut engine = LayoutEngine::new(VIEWPORT);
    install(&mut engine, &doc, 1);
    let mut large = flex;
    large.font_size = 40 * 64;
    restyle(&mut doc, div, large);
    doc.styled.styles[div].names.font = 7;
    assert!(!engine.try_patch(&doc.styled, 1, &vec![doc.id(div)]));
    install(&mut engine, &doc, 1);
    assert_eq!(
        engine.reflow_counts(),
        (2, 0),
        "font-size change on a flex text-run container rebuilds"
    );
}

#[test]
fn order_change_forces_rebuild_and_resorts_children() {
    let mut doc = Doc::new();
    let flex = doc.el(doc.body, "div", with_inside(DisplayInside::Flex, Display::Flex));
    let mut first = block();
    first.order = 1;
    let mut second = block();
    second.order = 2;
    let x = doc.el(flex, "div", first);
    let y = doc.el(flex, "div", second);
    let mut engine = LayoutEngine::new(VIEWPORT);
    install(&mut engine, &doc, 1);
    let mut third = block();
    third.order = 3;
    restyle(&mut doc, x, third);
    assert!(!engine.try_patch(&doc.styled, 1, &vec![doc.id(x)]));
    install(&mut engine, &doc, 1);
    assert_eq!(engine.reflow_counts().0, 2, "an order change must rebuild");
    let container = engine.tree().box_for_node(doc.id(flex)).unwrap();
    let order: Vec<Option<NodeId>> = engine
        .tree()
        .box_(container)
        .children
        .iter()
        .map(|&c| engine.tree().box_(c).dom_node)
        .collect();
    assert_eq!(order, [Some(doc.id(y)), Some(doc.id(x))]);
}

#[test]
fn changing_list_style_rebuilds_the_marker() {
    let mut doc = Doc::new();
    let ul = doc.list(doc.body, "ul");
    let a = doc.item(ul, "disc");
    doc.text(a, "alpha");
    let mut engine = LayoutEngine::new(VIEWPORT);
    install(&mut engine, &doc, 1);
    assert_eq!(doc.marker_string(&doc.build(), a).as_deref(), Some("\u{2022}"));
    assert_eq!(engine.reflow_counts(), (1, 0));

    doc.styled.styles[a].counter = CounterStyle::Name("upper-roman".to_string());
    doc.styled.styles[a].names.all += 1000;
    doc.styled.styles[a].names.list += 1;
    assert!(!engine.try_patch(&doc.styled, 1, &vec![doc.id(a)]));
    install(&mut engine, &doc, 1);
    assert_eq!(engine.reflow_counts().0, 2, "must rebuild, not patch");
    assert_eq!(doc.marker_string(&doc.build(), a).as_deref(), Some("I."));

    doc.styled.styles[a].counter = CounterStyle::Name("disc".to_string());
    doc.styled.styles[a].marker = MarkerPosition::Inside;
    let built = doc.build();
    assert!(doc.marker_box(&built, a).is_none());
    assert_eq!(doc.text_of(&built, doc.box_of(&built, a)), "\u{2022} alpha");

    doc.styled.styles[a].counter = CounterStyle::Unmarked;
    let built = doc.build();
    assert!(doc.marker_box(&built, a).is_none());
    assert_eq!(doc.text_of(&built, doc.box_of(&built, a)), "alpha");
}

#[test]
fn column_property_changes_force_a_box_tree_rebuild() {
    let mut doc = Doc::new();
    let mut columns = block();
    columns.multicol.count = Some(2);
    columns.multicol.gap = ColumnGap::Length(Dimension::Length(0));
    let m = doc.el(doc.body, "div", columns);
    doc.text(m, "XXXXX XXXXX XXXXX XXXXX");
    let plain = doc.el(doc.body, "div", block());
    let mut engine = LayoutEngine::new(VIEWPORT);
    install(&mut engine, &doc, 1);
    let (rebuilds, _) = engine.reflow_counts();
    // `column-count` decides the box structure: it cannot be patched in place.
    columns.multicol.count = Some(4);
    restyle(&mut doc, m, columns);
    assert!(!engine.try_patch(&doc.styled, 1, &vec![doc.id(m)]));
    install(&mut engine, &doc, 1);
    assert_eq!(engine.reflow_counts().0, rebuilds + 1);
    // So does `column-gap`, which lives on the container's columns.
    columns.multicol.gap = ColumnGap::Length(Dimension::Length(10 * 64));
    restyle(&mut doc, m, columns);
    assert!(!engine.try_patch(&doc.styled, 1, &vec![doc.id(m)]));
    install(&mut engine, &doc, 1);
    assert_eq!(engine.reflow_counts().0, rebuilds + 2);
    let id = engine.tree().box_for_node(doc.id(m)).unwrap();
    let config = engine.tree().box_(id).multicol.as_ref().unwrap().config;
    assert_eq!(used_gap(&config, 200 * 64, 20 * 64), 10 * 64);
    // Where there are no columns, a gap is patched in with the rest of the style.
    let mut gap = block();
    gap.multicol.gap = ColumnGap::Length(Dimension::Length(64));
    restyle(&mut doc, plain, gap);
    assert!(engine.try_patch(&doc.styled, 1, &vec![doc.id(plain)]));
}

/// The boxes of a node and of every node around it are out of date, and no others.
fn assert_stale_up_from(engine: &LayoutEngine, id: BoxId) {
    let mut over = vec![id];
    while let Some(p) = engine.tree().box_(over[over.len() - 1]).parent {
        over.push(p);
    }
    for i in 0..engine.tree().box_count() {
        let b = BoxId(i as u32);
        assert_eq!(engine.tree().box_(b).stale, over.contains(&b), "box {i}");
    }
}

#[test]
fn a_gap_change_on_a_flex_container_is_laid_out_again() {
    let mut doc = Doc::new();
    let outer = doc.el(doc.body, "div", block());
    let mut flex = with_inside(DisplayInside::Flex, Display::Flex);
    flex.multicol.gap = ColumnGap::Length(Dimension::Length(10 * 64));
    let container = doc.el(outer, "div", flex);
    doc.el(container, "div", sized(10, 10));
    doc.el(doc.body, "div", sized(10, 10));
    let fresh = |engine: &mut LayoutEngine| {
        for b in &mut engine.tree.boxes {
            b.stale = false;
        }
    };
    let mut engine = LayoutEngine::new(VIEWPORT);
    install(&mut engine, &doc, 1);
    let id = engine.tree().box_for_node(doc.id(container)).unwrap();
    assert_eq!(engine.tree().box_(id).style.column_gap, Dimension::Length(10 * 64));
    // Every property that the algorithms read counts.
    let changes: [fn(&mut ComputedStyle); 8] = [
        |s| s.multicol.gap = ColumnGap::Length(Dimension::Length(40 * 64)),
        |s| s.box_style.row_gap = Dimension::Length(64),
        |s| s.box_style.flex_wrap = FlexWrap::Wrap,
        |s| s.box_style.flex_shrink = 0,
        |s| s.box_style.clear = Clear::Left,
        |s| s.box_style.justify_self = Some(CENTER),
        |s| s.box_style.justify_items = Some(CENTER),
        |s| s.box_style.grid_flow = GridFlow::Column,
    ];
    for change in changes {
        fresh(&mut engine);
        change(&mut flex);
        restyle(&mut doc, container, flex);
        assert!(engine.try_patch(&doc.styled, 1, &vec![doc.id(container)]));
        assert_stale_up_from(&engine, id);
    }
    assert_eq!(engine.tree().box_(id).style.column_gap, Dimension::Length(40 * 64));
    // So does what only the box algorithms hold, such as the sizes of tracks.
    fresh(&mut engine);
    doc.styled.styles[container].names.boxes = 7;
    restyle(&mut doc, container, flex);
    assert!(engine.try_patch(&doc.styled, 1, &vec![doc.id(container)]));
    assert_stale_up_from(&engine, id);
    // The same again, in a list that names the node twice, asks for nothing.
    fresh(&mut engine);
    restyle(&mut doc, container, flex);
    assert!(engine.try_patch(&doc.styled, 1, &vec![doc.id(container), doc.id(container)]));
    assert!(engine.tree().boxes.iter().all(|b| !b.stale));
}

#[test]
fn a_patch_goes_by_the_new_viewport() {
    let mut doc = Doc::new();
    let div = doc.el(doc.body, "div", sized(10, 10));
    let mut engine = LayoutEngine::new(VIEWPORT);
    install(&mut engine, &doc, 1);
    let wide = Viewport { width: 1000 * 64, height: 700 * 64 };
    engine.set_viewport(wide);
    assert_eq!(engine.tree().viewport(), VIEWPORT);
    restyle(&mut doc, div, sized(20, 10));
    assert!(engine.try_patch(&doc.styled, 1, &vec![doc.id(div)]));
    assert_eq!(engine.tree().viewport(), wide);
}

#[test]
fn content_belongs_to_the_element_whose_children_it_is() {
    let mut doc = Doc::new();
    let mut columns = block();
    columns.multicol.count = Some(2);
    let m = doc.el(doc.body, "div", columns);
    doc.text(m, "text in columns");
    let built = doc.build();
    let root = doc.box_of(&built, m);
    let flow = built.tree.box_(root).multicol.as_ref().unwrap().flow;
    // The flow is anonymous, and its text the container's.
    assert_eq!(built.tree.box_(flow).dom_node, None);
    assert_eq!(built.styles[flow.index()], StyleOf::Anonymous(m));
    assert_eq!(content_owner(built.inline[flow.index()]), Some(m));
    assert_eq!(content_owner(InlineSource::Items), None);
    assert_eq!(content_owner(InlineSource::Marker(1)), None);
}

#[test]
fn a_font_size_change_on_a_multicol_root_reshapes_its_flow() {
    let mut doc = Doc::new();
    let mut columns = block();
    columns.multicol.count = Some(2);
    columns.font_size = 20 * 64;
    let div = doc.el(doc.body, "div", columns);
    doc.text(div, "XXXXX XXXXX XXXXX XXXXX");
    let mut engine = LayoutEngine::new(VIEWPORT);
    install(&mut engine, &doc, 1);
    let mut small = columns;
    small.font_size = 10 * 64;
    restyle(&mut doc, div, small);
    doc.styled.styles[div].names.font = 7;
    assert!(!engine.try_patch(&doc.styled, 1, &vec![doc.id(div)]));
    install(&mut engine, &doc, 1);
    assert_eq!(engine.reflow_counts().0, 2);
}

#[test]
fn colours_of_inline_content_are_only_recorded() {
    let mut doc = Doc::new();
    let div = doc.el(doc.body, "div", block());
    let span = doc.el(div, "span", inline());
    doc.text(span, "x");
    let mut engine = LayoutEngine::new(VIEWPORT);
    install(&mut engine, &doc, 1);
    doc.styled.styles[span].names.all += 1000;
    assert!(engine.try_patch(&doc.styled, 1, &vec![doc.id(span)]));
    assert!(engine.tree().boxes.iter().all(|b| !b.stale));
    // A change of its text values reshapes.
    doc.styled.styles[span].names.all += 1000;
    doc.styled.styles[span].names.text += 1;
    assert!(!engine.try_patch(&doc.styled, 1, &vec![doc.id(span)]));
}

#[test]
fn intrinsic_size_forces_relayout_not_patch() {
    let mut doc = Doc::new();
    let img = doc.el(doc.body, "img", inline());
    doc.attr(img, "src", IMAGE_URL);
    let mut engine = LayoutEngine::new(VIEWPORT);
    install(&mut engine, &doc, 1);
    let (rebuilds_before, _) = engine.reflow_counts();
    engine.insert_raster_image(IMAGE_URL.to_string(), 40, 20, std::sync::Arc::new(vec![0; 3200]));
    assert!(!engine.try_patch(&doc.styled, 1, &Vec::new()));
    doc.styled.styles[img].image = Some((Size { width: 40 * 64, height: 20 * 64 }, 1));
    install(&mut engine, &doc, 1);
    let (rebuilds_after, _) = engine.reflow_counts();
    assert!(rebuilds_after > rebuilds_before, "image insert forced a rebuild");
    let id = engine.tree().box_for_node(doc.id(img)).unwrap();
    match &engine.tree().box_(id).replaced {
        Some(ReplacedContent::Image(ctx)) => assert_eq!(ctx.inherent_size.width, 40 * 64),
        other => panic!("expected an image, got {other:?}"),
    }
}

#[test]
fn inserting_image_bumps_store_and_paint_stamp() {
    let mut engine = LayoutEngine::new(VIEWPORT);
    let before = engine.images().version();
    engine.insert_raster_image(IMAGE_URL.to_string(), 10, 10, std::sync::Arc::new(vec![0; 400]));
    assert!(engine.images().version() > before);
    let v1 = engine.paint_stamp().images_version;
    engine.insert_raster_image(IMAGE_URL.to_string(), 20, 20, std::sync::Arc::new(vec![0; 1600]));
    assert!(engine.paint_stamp().images_version > v1);
    engine.mark_image_broken(IMAGE_URL.to_string());
    assert!(engine.images().is_broken(IMAGE_URL));
    engine.insert_vector_image("b.svg".to_string(), 2, 3, std::sync::Arc::new(Vec::new()));
    assert_eq!(engine.images().get("b.svg").unwrap().height, 3);
}

#[test]
fn reflow_stamp_skips_clean_reflows() {
    let mut engine = LayoutEngine::new(VIEWPORT);
    let stamp = match engine.begin_reflow(1, 1) {
        ReflowStart::Due(stamp) => stamp,
        _ => panic!("the first reflow is due"),
    };
    assert!(engine.finish_reflow(stamp, Ok(())).is_ok());
    assert!(matches!(engine.begin_reflow(1, 1), ReflowStart::Current));
    assert!(matches!(engine.begin_reflow(2, 1), ReflowStart::Due(_)));
    assert!(matches!(engine.begin_reflow(1, 2), ReflowStart::Due(_)));
    engine.set_viewport(Viewport { width: 64, height: 64 });
    assert!(matches!(engine.begin_reflow(1, 1), ReflowStart::Due(_)));
}

#[test]
fn a_second_reflow_at_the_same_stamp_fails_fast() {
    let mut doc = Doc::new();
    doc.el(doc.body, "div", block());
    let mut engine = LayoutEngine::new(VIEWPORT);
    let stamp = match engine.begin_reflow(1, 1) {
        ReflowStart::Due(stamp) => stamp,
        _ => panic!("the first reflow is due"),
    };
    install(&mut engine, &doc, 1);
    let aborted = engine.finish_reflow(stamp, Err(LayoutAborted::Deadline { limit: 0 }));
    assert_eq!(aborted, Err(LayoutAborted::Deadline { limit: 0 }));
    // The tree is discarded wholesale.
    assert_eq!(engine.tree().box_count(), 0);
    assert!(engine.border_box(doc.id(doc.body)).is_none());
    let counts = engine.reflow_counts();
    assert!(matches!(
        engine.begin_reflow(1, 1),
        ReflowStart::Failed(LayoutAborted::Deadline { limit: 0 })
    ));
    assert_eq!(engine.reflow_counts(), counts, "the retry redid the work");
}

/// A reflow of the document under a budget, at the time zero; the clock stands still.
fn reflow(
    engine: &mut LayoutEngine,
    doc: &Doc,
    budget: &mut BudgetState,
    version: u64,
) -> Result<(), LayoutAborted> {
    let stamp = match engine.begin_reflow(version, 1) {
        ReflowStart::Current => return Ok(()),
        ReflowStart::Failed(reason) => return Err(reason),
        ReflowStart::Due(stamp) => stamp,
    };
    let guard = arm(budget, engine.budget, 0);
    install(engine, doc, 1);
    let mut outcome = Ok(());
    for _ in 0..engine.tree().box_count() {
        if checkpoint(budget) {
            if let Some(reason) = check_deadline(budget, 0) {
                outcome = Err(reason);
                break;
            }
        }
    }
    disarm(budget, guard);
    engine.finish_reflow(stamp, outcome)
}

/// Three boxes in a body.
fn three() -> Doc {
    let mut doc = Doc::new();
    for _ in 0..3 {
        doc.el(doc.body, "div", block());
    }
    doc
}

#[test]
fn zero_budget_aborts_with_a_typed_error() {
    let doc = three();
    let mut engine = LayoutEngine::new(VIEWPORT);
    let mut budget = BudgetState::new();
    let guard = arm(&mut budget, 0, 0);
    assert_eq!(
        reflow(&mut engine, &doc, &mut budget, 1),
        Err(LayoutAborted::Deadline { limit: 0 })
    );
    disarm(&mut budget, guard);
    assert_eq!(engine.tree().box_count(), 0);
    assert!(engine.border_box(doc.id(3)).is_none());
}

#[test]
fn an_unarmed_reflow_is_unaffected() {
    let doc = three();
    let mut engine = LayoutEngine::new(VIEWPORT);
    let mut budget = BudgetState::new();
    assert_eq!(reflow(&mut engine, &doc, &mut budget, 1), Ok(()));
    assert_eq!(engine.tree().box_count(), 5);
}

#[test]
fn a_reflow_from_a_geometry_query_is_budgeted() {
    let doc = three();
    let mut engine = LayoutEngine::new(VIEWPORT);
    let mut budget = BudgetState::new();
    engine.set_budget(0);
    assert_eq!(
        reflow(&mut engine, &doc, &mut budget, 1),
        Err(LayoutAborted::Deadline { limit: 0 })
    );
    assert_eq!(engine.tree().box_count(), 0);
    assert!(!budget.is_armed());
}

#[test]
fn an_outer_budget_wins_over_the_engines_own() {
    let doc = three();
    let mut engine = LayoutEngine::new(VIEWPORT);
    let mut budget = BudgetState::new();
    engine.set_budget(0);
    let guard = arm(&mut budget, 3600 * 1_000_000_000, 0);
    assert_eq!(reflow(&mut engine, &doc, &mut budget, 1), Ok(()));
    assert!(engine.tree().box_count() > 0);
    assert!(budget.is_armed());
    disarm(&mut budget, guard);
    assert!(!budget.is_armed());
}

#[test]
fn a_disabled_budget_never_trips() {
    let doc = three();
    let mut engine = LayoutEngine::new(VIEWPORT);
    let mut budget = BudgetState::new();
    engine.set_budget(UNLIMITED);
    let guard = arm(&mut budget, UNLIMITED, 0);
    assert_eq!(reflow(&mut engine, &doc, &mut budget, 1), Ok(()));
    disarm(&mut budget, guard);
    assert!(engine.tree().box_count() > 0);
}

#[test]
fn a_foreign_panic_is_classified_not_propagated() {
    let doc = three();
    let mut engine = LayoutEngine::new(VIEWPORT);
    let stamp = match engine.begin_reflow(1, 1) {
        ReflowStart::Due(stamp) => stamp,
        _ => panic!("the first reflow is due"),
    };
    install(&mut engine, &doc, 1);
    let caught = classify(PanicPayload::Message("attempt to add with overflow".to_string()));
    match engine.finish_reflow(stamp, Err(caught)) {
        Err(LayoutAborted::EnginePanic(message)) => {
            assert!(!message.is_empty(), "the panic's own message is kept");
        }
        other => panic!("expected a classified engine panic, got {other:?}"),
    }
    assert_eq!(engine.tree().box_count(), 0);
}

#[test]
fn recovery_rebuilds_from_scratch() {
    let mut doc = Doc::new();
    let div = doc.el(doc.body, "div", block());
    let mut engine = LayoutEngine::new(VIEWPORT);
    install(&mut engine, &doc, 1);
    let stamp = match engine.begin_reflow(1, 1) {
        ReflowStart::Due(stamp) => stamp,
        _ => panic!("the reflow is due"),
    };
    assert!(engine
        .finish_reflow(stamp, Err(LayoutAborted::EnginePanic("grid overflowed".to_string())))
        .is_err());
    // Any version bump lifts the block, and nothing is left to patch from.
    assert!(matches!(engine.begin_reflow(2, 1), ReflowStart::Due(_)));
    assert!(!engine.try_patch(&doc.styled, 1, &vec![doc.id(div)]));
    install(&mut engine, &doc, 1);
    let (rebuilds, patches) = engine.reflow_counts();
    assert!(rebuilds >= 1, "recovery must rebuild");
    assert_eq!(patches, 0, "the drained restyle set cannot be patched from");
}

#[test]
fn transformed_static_element_is_containing_block_for_absolute_child() {
    let (doc, engine, outer, child) = positioned(true, CssPosition::Static, CssPosition::Absolute);
    let tree = engine.tree();
    let outer = tree.box_for_node(doc.id(outer)).unwrap();
    let child = tree.box_for_node(doc.id(child)).unwrap();
    assert_eq!(tree.box_(child).parent, Some(outer));
}

#[test]
fn transformed_element_is_containing_block_for_fixed_child() {
    let (doc, engine, outer, child) = positioned(true, CssPosition::Static, CssPosition::Fixed);
    let tree = engine.tree();
    let outer = tree.box_for_node(doc.id(outer)).unwrap();
    let child = tree.box_for_node(doc.id(child)).unwrap();
    assert_eq!(tree.box_(child).parent, Some(outer));
}

#[test]
fn fixed_child_ignores_relative_ancestor() {
    let (doc, engine, _, child) = positioned(false, CssPosition::Relative, CssPosition::Fixed);
    let tree = engine.tree();
    let child = tree.box_for_node(doc.id(child)).unwrap();
    assert_eq!(tree.box_(child).parent, tree.root());
    assert_eq!(containing_block(tree, child, tree.root().unwrap()), tree.root().unwrap());
}

/// An element, a block in it and an out-of-flow box in that one, laid into a tree.
fn positioned(
    transformed: bool,
    outer: CssPosition,
    inner: CssPosition,
) -> (Doc, LayoutEngine, usize, usize) {
    let mut doc = Doc::new();
    let mut outer_style = block();
    outer_style.position = outer;
    outer_style.has_transform = transformed;
    let a = doc.el(doc.body, "div", outer_style);
    let b = doc.el(a, "div", block());
    let mut inner_style = block();
    inner_style.position = inner;
    inner_style.box_style.placement = Placement::OutOfFlow;
    let c = doc.el(b, "div", inner_style);
    let mut engine = LayoutEngine::new(VIEWPORT);
    install(&mut engine, &doc, 1);
    (doc, engine, a, c)
}

#[test]
fn the_viewport_takes_over_the_scrolling_of_the_body() {
    let scrolling = |root: Overflow, body: Overflow| {
        let mut doc = Doc::new();
        let mut html = block();
        html.box_style.overflow_x = root;
        html.box_style.overflow_y = root;
        let mut inner = block();
        inner.box_style.overflow_x = body;
        inner.box_style.overflow_y = Overflow::Hidden;
        let (r, b) = (doc.root, doc.body);
        doc.styled.styles[r].primary = Some(html);
        doc.styled.styles[b].primary = Some(inner);
        let mut built = doc.build();
        propagate_body_overflow(&mut built.tree, &doc.styled.dom);
        let style = built.tree.box_(doc.box_of(&built, b)).style;
        (style.overflow_x, style.overflow_y)
    };
    assert_eq!(
        scrolling(Overflow::Visible, Overflow::Scroll),
        (Overflow::Visible, Overflow::Hidden)
    );
    assert_eq!(
        scrolling(Overflow::Hidden, Overflow::Scroll),
        (Overflow::Scroll, Overflow::Hidden)
    );
}

#[test]
fn dump_prints_tree() {
    let mut doc = Doc::new();
    let div = doc.el(doc.body, "div", block());
    doc.text(div, "hi");
    let mut engine = LayoutEngine::new(VIEWPORT);
    assert_eq!(engine.dump(), "(no layout)\n");
    install(&mut engine, &doc, 1);
    let id = engine.tree().box_for_node(doc.id(div)).unwrap();
    engine.tree.boxes[id.0 as usize].final_layout.size = Size { width: 100 * 64, height: 20 * 64 };
    let dump = engine.dump();
    assert!(dump.contains("BLOCK"), "dump: {dump}");
    assert!(dump.contains("INLINE"), "dump: {dump}");
    assert!(dump.contains("100x20"), "dump: {dump}");
    engine.tree.boxes[id.0 as usize].final_layout.location.x = -8 * 64;
    engine.tree.boxes[id.0 as usize].final_layout.size.width = 100 * 64 + 32;
    let dump = engine.dump();
    assert!(dump.contains("    INLINE node=3v1 @ (-8, 0) 100.5x20\n"), "{dump}");
    assert!(dump.contains("      text: \"hi\"\n"), "{dump}");
    assert_eq!(dump.lines().count(), 4);
}

#[test]
fn line_heights_of_text() {
    let mut doc = Doc::new();
    let mut tall = block();
    tall.line_height = LineHeight::Number(2_000_000);
    tall.font_size = 10 * 64;
    let div = doc.el(doc.body, "div", tall);
    let built = doc.build();
    assert_eq!(built.tree.box_(doc.box_of(&built, div)).line_height, 20 * 64);
    assert_eq!(built.tree.box_(doc.box_of(&built, doc.body)).line_height, 1229);
}
