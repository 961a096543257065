//! The box tree: a flat arena of [`LayoutBox`]es, separate from the document. Anonymous
//! boxes exist only here; the box of a document node is found through a side map.
//!
//! Boxes are stored in build order: a box precedes every box inside it. Re-parenting an
//! out-of-flow box onto an ancestor keeps that order, so that every walk down the tree
//! goes to greater ids and every walk up to smaller ones.

use std::collections::HashMap;

use vstd::prelude::*;

use crate::grid::{no_grid, GridStyle};
use crate::units::{Dimension, Dimensions, EdgeDimensions, Edges, Offset, Point, Rect, Size};

verus! {

broadcast use vstd::std_specs::hash::group_hash_axioms;

/// The id of a document node: its slot and the generation of that slot. A generation is
/// never zero.
#[derive(Clone, Copy, PartialEq, Eq, Hash, Debug, Structural)]
pub struct NodeId {
    pub index: u32,
    pub generation: u32,
}

impl NodeId {
    /// The id is one that a document hands out.
    pub open spec fn valid(self) -> bool {
        self.generation != 0
    }

    /// The id as one number.
    pub open spec fn key(self) -> u64 {
        (self.generation * 0x1_0000_0000 + self.index) as u64
    }

    /// The id as one number.
    pub fn to_key(self) -> (r: u64)
        ensures
            r == self.key(),
            r as int == self.generation * 0x1_0000_0000 + self.index,
    {
        self.generation as u64 * 0x1_0000_0000 + self.index as u64
    }
}

/// No two nodes have the same key.
pub proof fn node_keys_are_distinct(a: NodeId, b: NodeId)
    ensures
        a.key() == b.key() ==> a == b,
        a.key() as int == a.generation * 0x1_0000_0000 + a.index,
{
    assert(a.key() as int == a.generation * 0x1_0000_0000 + a.index);
    assert(b.key() as int == b.generation * 0x1_0000_0000 + b.index);
}

/// Index of a box in the [`LayoutTree`] arena.
#[derive(Clone, Copy, PartialEq, Eq, Hash, Debug, Structural)]
pub struct BoxId(pub u32);

impl BoxId {
    /// The position of the box in the arena.
    pub fn index(self) -> (r: usize)
        ensures
            r == self.0,
    {
        self.0 as usize
    }

    /// The id as the number that a layout algorithm knows the box by.
    pub fn to_node_number(self) -> (r: u64)
        ensures
            r == self.0,
    {
        self.0 as u64
    }

    /// The box that a layout algorithm knows by `number`, which came from
    /// [`BoxId::to_node_number`].
    pub fn from_node_number(number: u64) -> (r: BoxId)
        requires
            number <= u32::MAX,
        ensures
            r.0 == number,
    {
        BoxId(number as u32)
    }
}

/// The node that owns a span of text, packed into one number; zero where none does.
#[derive(Clone, Copy, PartialEq, Eq, Debug, Structural)]
pub struct TextBrush {
    pub packed: u64,
}

impl TextBrush {
    /// The node that a packed number stands for.
    pub open spec fn unpacked(packed: int) -> Option<NodeId> {
        if packed / 0x1_0000_0000 == 0 {
            None
        } else {
            Some(
                NodeId {
                    index: (packed % 0x1_0000_0000) as u32,
                    generation: (packed / 0x1_0000_0000) as u32,
                },
            )
        }
    }

    /// The brush of no node.
    pub fn unowned() -> (r: TextBrush)
        ensures
            r.packed == 0,
    {
        TextBrush { packed: 0 }
    }

    /// The brush of the text that `node` owns.
    pub fn from_node(node: NodeId) -> (r: TextBrush)
        ensures
            r.packed == node.key(),
    {
        TextBrush { packed: node.to_key() }
    }

    /// The node that owns the text, if one does.
    pub fn node(self) -> (r: Option<NodeId>)
        ensures
            r == TextBrush::unpacked(self.packed as int),
    {
        let generation: u32 = (self.packed / 0x1_0000_0000) as u32;
        if generation == 0 {
            None
        } else {
            Some(NodeId { index: (self.packed % 0x1_0000_0000) as u32, generation })
        }
    }
}

/// A brush gives back the node that it was made from.
pub proof fn text_brush_round_trip(node: NodeId)
    requires
        node.valid(),
    ensures
        TextBrush::unpacked(node.key() as int) == Some(node),
        TextBrush::unpacked(0) is None,
{
    node_keys_are_distinct(node, node);
    let k = node.generation * 0x1_0000_0000 + node.index;
    assert(k / 0x1_0000_0000 == node.generation);
    assert(k % 0x1_0000_0000 == node.index);
}

/// Which style length a `min-content` or `max-content` keyword stood for.
#[derive(Clone, Copy, PartialEq, Eq, Debug, Structural)]
pub enum IntrinsicSizeTarget {
    Width,
    Height,
    MinWidth,
    MinHeight,
    MaxWidth,
    MaxHeight,
    /// Width or height by the containing flex container's direction.
    FlexBasis,
}

/// A size keyword that is resolved to a length before the layout pass runs.
#[derive(Clone, Copy, PartialEq, Eq, Debug, Structural)]
pub enum IntrinsicSizeKeyword {
    MinContent,
    MaxContent,
}

/// What kind of box this is.
#[derive(Clone, Copy, PartialEq, Eq, Debug, Structural)]
pub enum BoxKind {
    /// A block, flex or grid container.
    Block,
    /// Root of an inline formatting context.
    InlineRoot,
    /// An anonymous block that wraps inline content in a mixed container.
    AnonymousBlock,
    /// A replaced element or a form control with the size of a leaf.
    Replaced,
    /// A table, laid out as a grid.
    TableRoot,
    /// A multi-column container. Its only child holds all of its content, in one flow.
    MulticolRoot,
}

/// The pseudo-element that a box belongs to; its node is then the owning element.
#[derive(Clone, Copy, PartialEq, Eq, Debug, Structural)]
pub enum PseudoBox {
    Before,
    After,
    /// The bullet or number of a list item.
    Marker,
}

/// The computed `position`.
#[derive(Clone, Copy, PartialEq, Eq, Debug, Structural)]
pub enum CssPosition {
    Static,
    Relative,
    Sticky,
    Absolute,
    Fixed,
}

/// How the layout algorithms place a box: in the flow, or out of it.
#[derive(Clone, Copy, PartialEq, Eq, Debug, Structural)]
pub enum Placement {
    InFlow,
    OutOfFlow,
}

/// The layout algorithm of a box's content.
#[derive(Clone, Copy, PartialEq, Eq, Debug, Structural)]
pub enum Display {
    Block,
    Flex,
    Grid,
    Hidden,
}

/// The side that a box floats to.
#[derive(Clone, Copy, PartialEq, Eq, Debug, Structural)]
pub enum Float {
    Off,
    Left,
    Right,
}

/// The sides whose floats a box stays clear of.
#[derive(Clone, Copy, PartialEq, Eq, Debug, Structural)]
pub enum Clear {
    Off,
    Left,
    Right,
    Both,
}

/// The computed `overflow` of an axis.
#[derive(Clone, Copy, PartialEq, Eq, Debug, Structural)]
pub enum Overflow {
    Visible,
    Clip,
    Hidden,
    Scroll,
}

impl Overflow {
    /// The box is a scroll container in this axis.
    pub open spec fn scrolls(self) -> bool {
        self is Hidden || self is Scroll
    }

    /// Whether the box is a scroll container in this axis.
    pub fn is_scroll_container(self) -> (r: bool)
        ensures
            r == self.scrolls(),
    {
        matches!(self, Overflow::Hidden | Overflow::Scroll)
    }
}

/// The inline base direction.
#[derive(Clone, Copy, PartialEq, Eq, Debug, Structural)]
pub enum Direction {
    Ltr,
    Rtl,
}

/// The main axis of a flex container.
#[derive(Clone, Copy, PartialEq, Eq, Debug, Structural)]
pub enum FlexDirection {
    Row,
    RowReverse,
    Column,
    ColumnReverse,
}

/// Whether the items of a flex container go onto several lines.
#[derive(Clone, Copy, PartialEq, Eq, Debug, Structural)]
pub enum FlexWrap {
    NoWrap,
    Wrap,
    WrapReverse,
}

/// The order in which items find their places in a grid, and whether they fill holes.
#[derive(Clone, Copy, PartialEq, Eq, Debug, Structural)]
pub enum GridFlow {
    Row,
    Column,
    RowDense,
    ColumnDense,
}

/// The side that block children are pushed to by the legacy values of `text-align`.
#[derive(Clone, Copy, PartialEq, Eq, Debug, Structural)]
pub enum LegacyAlign {
    Auto,
    Left,
    Right,
    Center,
}

/// What `width` and `height` measure.
#[derive(Clone, Copy, PartialEq, Eq, Debug, Structural)]
pub enum BoxSizing {
    ContentBox,
    BorderBox,
}

/// A keyword of the alignment properties.
#[derive(Clone, Copy, PartialEq, Eq, Debug, Structural)]
pub enum AlignKeyword {
    Start,
    End,
    FlexStart,
    FlexEnd,
    Center,
    Baseline,
    Stretch,
    SpaceBetween,
    SpaceEvenly,
    SpaceAround,
}

/// The value of an alignment property: a keyword, and whether it gives way to `start` rather
/// than let content overflow out of reach.
#[derive(Clone, Copy, PartialEq, Eq, Debug, Structural)]
pub struct Alignment {
    pub keyword: AlignKeyword,
    pub safe: bool,
}

/// A ratio of width to height.
#[derive(Clone, Copy, PartialEq, Eq, Debug, Structural)]
pub struct Ratio {
    pub width: u32,
    pub height: u32,
}

/// What the layout algorithms read of a box's computed style. Grid templates and places are
/// held apart.
#[derive(Clone, Copy, PartialEq, Eq, Debug, Structural)]
pub struct BoxStyle {
    pub display: Display,
    pub placement: Placement,
    pub float: Float,
    pub clear: Clear,
    pub overflow_x: Overflow,
    pub overflow_y: Overflow,
    pub direction: Direction,
    pub flex_direction: FlexDirection,
    pub flex_wrap: FlexWrap,
    pub flex_basis: Dimension,
    /// `flex-grow` in millionths.
    pub flex_grow: u32,
    /// `flex-shrink` in millionths.
    pub flex_shrink: u32,
    pub align_items: Option<Alignment>,
    pub align_self: Option<Alignment>,
    pub align_content: Option<Alignment>,
    pub justify_content: Option<Alignment>,
    pub justify_items: Option<Alignment>,
    pub justify_self: Option<Alignment>,
    /// The gaps of a flex or grid container.
    pub column_gap: Dimension,
    pub row_gap: Dimension,
    pub grid_flow: GridFlow,
    pub legacy_align: LegacyAlign,
    /// The box is laid out in its container as a table is.
    pub is_table: bool,
    pub box_sizing: BoxSizing,
    pub size: Dimensions,
    pub min_size: Dimensions,
    pub max_size: Dimensions,
    pub aspect_ratio: Option<Ratio>,
    pub inset: EdgeDimensions,
    pub margin: EdgeDimensions,
    pub padding: EdgeDimensions,
    pub border: EdgeDimensions,
    /// Space that a scrollbar takes in an axis that scrolls.
    pub scrollbar_width: i32,
}

/// Where a box was laid out: its border box relative to its parent's, and what lies
/// inside and outside its border edges.
#[derive(Clone, Copy, PartialEq, Eq, Debug, Structural)]
pub struct Layout {
    pub location: Offset,
    pub size: Size,
    pub border: Edges,
    pub padding: Edges,
    pub margin: Edges,
    pub scrollbar_size: Size,
}

/// A 2D affine map: `x' = a·x + c·y + tx`, `y' = b·x + d·y + ty`, with the four factors
/// in 65536ths and the translation in layout units.
#[derive(Clone, Copy, PartialEq, Eq, Debug, Structural)]
pub struct Transform2D {
    pub a: i32,
    pub b: i32,
    pub c: i32,
    pub d: i32,
    pub tx: i32,
    pub ty: i32,
}

/// An item of a line box, relative to the content box of its formatting context.
#[derive(Clone, Copy, PartialEq, Eq, Debug, Structural)]
pub enum LineItem {
    /// A run of glyphs of one style.
    Run { offset: i32, advance: i32, brush: TextBrush },
    /// An atomic inline box.
    Atomic { id: BoxId, x: i32, y: i32, width: i32, height: i32 },
}

/// A line box.
pub struct LineBox {
    /// The top of the line.
    pub top: i32,
    pub baseline: i32,
    pub ascent: i32,
    pub descent: i32,
    pub items: Vec<LineItem>,
}

/// A laid-out inline formatting context: its lines, and the text they were shaped from.
pub struct IfcData {
    pub lines: Vec<LineBox>,
    pub text: String,
    /// The nodes that contribute text or style spans.
    pub contributors: Vec<NodeId>,
}

/// One used column: the slice of the flow that it shows, and where. Columns are
/// contiguous.
#[derive(Clone, Copy, PartialEq, Eq, Debug, Structural)]
pub struct ColumnRange {
    /// Left edge, from the container's content edge.
    pub x: i64,
    /// First position of the flow that is shown.
    pub start: i64,
    /// One past the last position of the flow that is shown.
    pub end: i64,
}

/// `column-gap`.
#[derive(Clone, Copy, PartialEq, Eq, Debug, Structural)]
pub enum ColumnGap {
    /// One em of the container's font.
    Normal,
    Length(Dimension),
}

/// The `column-*` properties of a container.
#[derive(Clone, Copy, PartialEq, Eq, Debug, Structural)]
pub struct MulticolConfig {
    /// `column-count`, `None` for `auto`.
    pub count: Option<u32>,
    /// `column-width`, `None` for `auto`.
    pub width: Option<i32>,
    pub gap: ColumnGap,
}

/// What a multi-column container knows of its columns.
pub struct MulticolContext {
    pub config: MulticolConfig,
    /// The box that holds the content, in one flow.
    pub flow: BoxId,
    pub used_width: i32,
    pub used_gap: i32,
    /// At which break opportunities of the flow the columns start and end, by their
    /// index; one more than there are columns.
    pub boundaries: Vec<usize>,
    /// The columns, placed.
    pub columns: Vec<ColumnRange>,
}

impl MulticolContext {
    /// The box that holds the content, in one flow.
    pub fn flow(&self) -> (r: BoxId)
        ensures
            r == self.flow,
    {
        self.flow
    }

    /// The width of a column.
    pub fn used_width(&self) -> (r: i32)
        ensures
            r == self.used_width,
    {
        self.used_width
    }

    /// The space between two columns.
    pub fn used_gap(&self) -> (r: i32)
        ensures
            r == self.used_gap,
    {
        self.used_gap
    }

    /// The columns, placed.
    pub fn columns(&self) -> (r: &Vec<ColumnRange>)
        ensures
            *r == self.columns,
    {
        &self.columns
    }
}

/// The natural and the attribute size of a replaced element.
#[derive(Clone, Copy, PartialEq, Eq, Debug, Structural)]
pub struct ReplacedContext {
    /// The content's natural size; zero until an image is decoded.
    pub inherent_size: Size,
    pub attr_width: Option<i32>,
    pub attr_height: Option<i32>,
    /// The id of the decoded image, once there is one.
    pub image: Option<u64>,
}

/// What a replaced box is sized by.
#[derive(Clone, Copy, PartialEq, Eq, Debug, Structural)]
pub enum ReplacedContent {
    Image(ReplacedContext),
    /// A text control of so many rows and columns, in millionths.
    TextInput { rows: u64, cols: Option<u64>, multiline: bool },
    /// A checkbox or radio button: a square.
    Checkbox,
}

/// One box in the layout tree.
pub struct LayoutBox {
    pub kind: BoxKind,
    /// The node that the box was generated for; the owning element for the box of a
    /// pseudo-element, none for an anonymous box.
    pub dom_node: Option<NodeId>,
    pub pseudo: Option<PseudoBox>,
    pub parent: Option<BoxId>,
    pub children: Vec<BoxId>,
    /// The parent that a re-parented out-of-flow box was built under.
    pub static_parent: Option<BoxId>,
    /// The out-of-flow boxes that were built under this one and moved away.
    pub hoisted_children: Vec<BoxId>,
    pub style: BoxStyle,
    /// The grid properties that go with the style.
    pub grid: GridStyle,
    /// The box isolates its floats, whatever its `overflow`.
    pub force_bfc: bool,
    pub position: CssPosition,
    pub z_index: i32,
    pub pointer_events_none: bool,
    pub has_transform: bool,
    /// The resolved transform in the box's own space.
    pub transform: Option<Transform2D>,
    pub order: i32,
    pub intrinsic_size_keywords: Vec<(IntrinsicSizeTarget, IntrinsicSizeKeyword)>,
    pub font_size: i32,
    pub line_height: i32,
    pub replaced: Option<ReplacedContent>,
    pub ifc: Option<IfcData>,
    pub multicol: Option<MulticolContext>,
    /// Where the box is before positions are rounded to whole px.
    pub unrounded_layout: Layout,
    /// How far corrections after the layout pass have moved the box.
    pub post_layout_offset: Point,
    /// Where the box is.
    pub final_layout: Layout,
    /// What scrolling can reach, in the box's own space.
    pub scrollable_overflow: Rect,
    /// What layout algorithms have cached for the box is out of date.
    pub stale: bool,
}

/// A layout of nothing at the origin.
pub open spec fn zero_layout() -> Layout {
    Layout {
        location: Offset { x: 0, y: 0 },
        size: Size { width: 0, height: 0 },
        border: Edges { left: 0, right: 0, top: 0, bottom: 0 },
        padding: Edges { left: 0, right: 0, top: 0, bottom: 0 },
        margin: Edges { left: 0, right: 0, top: 0, bottom: 0 },
        scrollbar_size: Size { width: 0, height: 0 },
    }
}

impl Layout {
    /// A layout of nothing at the origin.
    pub fn zero() -> (r: Layout)
        ensures
            r == zero_layout(),
    {
        Layout {
            location: Offset { x: 0, y: 0 },
            size: Size { width: 0, height: 0 },
            border: Edges { left: 0, right: 0, top: 0, bottom: 0 },
            padding: Edges { left: 0, right: 0, top: 0, bottom: 0 },
            margin: Edges { left: 0, right: 0, top: 0, bottom: 0 },
            scrollbar_size: Size { width: 0, height: 0 },
        }
    }
}

/// The initial style: a block in the flow, sized by its content and container.
pub open spec fn initial_style() -> BoxStyle {
    let auto = Dimensions { width: Dimension::Auto, height: Dimension::Auto };
    let auto_edges = EdgeDimensions {
        left: Dimension::Auto,
        right: Dimension::Auto,
        top: Dimension::Auto,
        bottom: Dimension::Auto,
    };
    let zero_edges = EdgeDimensions {
        left: Dimension::Length(0),
        right: Dimension::Length(0),
        top: Dimension::Length(0),
        bottom: Dimension::Length(0),
    };
    BoxStyle {
        display: Display::Block,
        placement: Placement::InFlow,
        float: Float::Off,
        clear: Clear::Off,
        overflow_x: Overflow::Visible,
        overflow_y: Overflow::Visible,
        direction: Direction::Ltr,
        flex_direction: FlexDirection::Row,
        flex_wrap: FlexWrap::NoWrap,
        flex_basis: Dimension::Auto,
        flex_grow: 0,
        flex_shrink: 1_000_000,
        align_items: None,
        align_self: None,
        align_content: None,
        justify_content: None,
        justify_items: None,
        justify_self: None,
        column_gap: Dimension::Length(0),
        row_gap: Dimension::Length(0),
        grid_flow: GridFlow::Row,
        legacy_align: LegacyAlign::Auto,
        is_table: false,
        box_sizing: BoxSizing::ContentBox,
        size: auto,
        min_size: auto,
        max_size: auto,
        aspect_ratio: None,
        inset: auto_edges,
        margin: zero_edges,
        padding: zero_edges,
        border: zero_edges,
        scrollbar_width: 0,
    }
}

impl BoxStyle {
    /// The initial style.
    pub fn initial() -> (r: BoxStyle)
        ensures
            r == initial_style(),
    {
        let auto = Dimensions { width: Dimension::Auto, height: Dimension::Auto };
        let auto_edges = EdgeDimensions {
            left: Dimension::Auto,
            right: Dimension::Auto,
            top: Dimension::Auto,
            bottom: Dimension::Auto,
        };
        let zero_edges = EdgeDimensions {
            left: Dimension::Length(0),
            right: Dimension::Length(0),
            top: Dimension::Length(0),
            bottom: Dimension::Length(0),
        };
        BoxStyle {
            display: Display::Block,
            placement: Placement::InFlow,
            float: Float::Off,
            clear: Clear::Off,
            overflow_x: Overflow::Visible,
            overflow_y: Overflow::Visible,
            direction: Direction::Ltr,
            flex_direction: FlexDirection::Row,
            flex_wrap: FlexWrap::NoWrap,
            flex_basis: Dimension::Auto,
            flex_grow: 0,
            flex_shrink: 1_000_000,
            align_items: None,
            align_self: None,
            align_content: None,
            justify_content: None,
            justify_items: None,
            justify_self: None,
            column_gap: Dimension::Length(0),
            row_gap: Dimension::Length(0),
            grid_flow: GridFlow::Row,
            legacy_align: LegacyAlign::Auto,
            is_table: false,
            box_sizing: BoxSizing::ContentBox,
            size: auto,
            min_size: auto,
            max_size: auto,
            aspect_ratio: None,
            inset: auto_edges,
            margin: zero_edges,
            padding: zero_edges,
            border: zero_edges,
            scrollbar_width: 0,
        }
    }
}

impl LayoutBox {
    /// A box of the given kind, node and style, in no tree yet.
    pub fn new(kind: BoxKind, dom_node: Option<NodeId>, style: BoxStyle) -> (r: LayoutBox)
        ensures
            r.kind == kind,
            r.dom_node == dom_node,
            r.style == style,
            r.grid@ == no_grid(),
            r.is_fresh(),
            r.pseudo is None,
            !r.force_bfc,
            r.position is Static,
            r.z_index == 0,
            !r.pointer_events_none,
            !r.has_transform,
            r.transform is None,
            r.order == 0,
            r.intrinsic_size_keywords@.len() == 0,
            r.font_size == 1024,
            r.line_height == 1229,
            r.replaced is None,
            r.ifc is None,
            r.unrounded_layout == zero_layout(),
            r.post_layout_offset == (Point { x: 0, y: 0 }),
            r.final_layout == zero_layout(),
            r.scrollable_overflow == (Rect { x: 0, y: 0, width: 0, height: 0 }),
            !r.stale,
    {
        LayoutBox {
            kind,
            dom_node,
            pseudo: None,
            parent: None,
            children: Vec::new(),
            static_parent: None,
            hoisted_children: Vec::new(),
            style,
            grid: GridStyle::initial(),
            force_bfc: false,
            position: CssPosition::Static,
            z_index: 0,
            pointer_events_none: false,
            has_transform: false,
            transform: None,
            order: 0,
            intrinsic_size_keywords: Vec::new(),
            font_size: 1024,
            line_height: 1229,
            replaced: None,
            ifc: None,
            multicol: None,
            unrounded_layout: Layout::zero(),
            post_layout_offset: Point { x: 0, y: 0 },
            final_layout: Layout::zero(),
            scrollable_overflow: Rect { x: 0, y: 0, width: 0, height: 0 },
            stale: false,
        }
    }

    /// The box is linked to no other box.
    pub open spec fn is_fresh(&self) -> bool {
        &&& self.parent is None
        &&& self.children@.len() == 0
        &&& self.static_parent is None
        &&& self.hoisted_children@.len() == 0
        &&& self.multicol is None
    }

    /// The box is the marker of a list item that sits outside the item's principal box.
    pub open spec fn outside_marker(&self) -> bool {
        self.pseudo == Some(PseudoBox::Marker) && self.style.placement is OutOfFlow
    }

    /// Whether the box is the marker of a list item that sits outside the item's
    /// principal box: only such a marker is taken out of the flow.
    pub fn is_outside_marker(&self) -> (r: bool)
        ensures
            r == self.outside_marker(),
    {
        matches!(self.pseudo, Some(PseudoBox::Marker)) && matches!(
            self.style.placement,
            Placement::OutOfFlow
        )
    }
}

/// The size of the viewport, in layout units.
#[derive(Clone, Copy, PartialEq, Eq, Debug, Structural)]
pub struct Viewport {
    pub width: i32,
    pub height: i32,
}

/// The box tree of one document layout.
pub struct LayoutTree {
    pub boxes: Vec<LayoutBox>,
    pub root: Option<BoxId>,
    /// The principal box of each node, by the node's key.
    pub node_to_box: HashMap<u64, BoxId>,
    pub viewport: Viewport,
}

impl LayoutTree {
    /// `id` is a box of the tree.
    pub open spec fn has(&self, id: BoxId) -> bool {
        id.0 < self.boxes@.len()
    }

    /// The box with the id `id`.
    pub open spec fn at(&self, id: BoxId) -> LayoutBox {
        self.boxes@[id.0 as int]
    }

    /// The links of the `i`th box lead to boxes that stand in the right order, and its
    /// children name it as their parent.
    pub open spec fn links_ok(&self, i: int) -> bool {
        let b = self.boxes@[i];
        &&& match b.parent {
            Some(p) => p.0 < i && self.boxes@[p.0 as int].children@.contains(BoxId(i as u32)),
            None => true,
        }
        &&& forall|k: int|
            0 <= k < b.children@.len() ==> i < (#[trigger] b.children@[k]).0 < self.boxes@.len()
                && self.boxes@[b.children@[k].0 as int].parent == Some(BoxId(i as u32))
        &&& b.children@.no_duplicates()
        &&& match b.static_parent {
            Some(p) => p.0 < i,
            None => true,
        }
        &&& match b.multicol {
            Some(mc) => i < mc.flow.0 < self.boxes@.len(),
            None => true,
        }
    }

    /// The tree is one: its links agree, the root has no parent, and the side map leads
    /// each node to its principal box.
    pub open spec fn wf(&self) -> bool {
        &&& self.boxes@.len() <= u32::MAX
        &&& forall|i: int| 0 <= i < self.boxes@.len() ==> #[trigger] self.links_ok(i)
        &&& match self.root {
            Some(r) => self.has(r) && self.at(r).parent is None,
            None => true,
        }
        &&& self.map_ok()
    }

    /// The side map leads each node that it knows to a box of that node which belongs to
    /// no pseudo-element.
    pub open spec fn map_ok(&self) -> bool {
        forall|key: u64| #[trigger]
            self.node_to_box@.contains_key(key) ==> {
                let id = self.node_to_box@[key];
                &&& self.has(id)
                &&& self.at(id).pseudo is None
                &&& match self.at(id).dom_node {
                    Some(node) => node.key() == key,
                    None => false,
                }
            }
    }

    /// The principal box of `node`, if it has one.
    pub open spec fn principal(&self, node: NodeId) -> Option<BoxId> {
        if self.node_to_box@.contains_key(node.key()) {
            Some(self.node_to_box@[node.key()])
        } else {
            None
        }
    }

    /// An empty tree.
    pub fn new(viewport: Viewport) -> (r: LayoutTree)
        ensures
            r.wf(),
            r.boxes@.len() == 0,
            r.root is None,
            r.node_to_box@ == Map::<u64, BoxId>::empty(),
            r.viewport == viewport,
    {
        LayoutTree { boxes: Vec::new(), root: None, node_to_box: HashMap::new(), viewport }
    }

    /// Drops all boxes.
    pub fn clear(&mut self)
        ensures
            final(self).wf(),
            final(self).boxes@.len() == 0,
            final(self).root is None,
            final(self).node_to_box@ == Map::<u64, BoxId>::empty(),
            final(self).viewport == old(self).viewport,
    {
        self.boxes.clear();
        self.root = None;
        self.node_to_box = HashMap::new();
    }

    /// Adds an unlinked box, which becomes the principal box of its node unless it
    /// belongs to a pseudo-element.
    pub fn push_box(&mut self, layout_box: LayoutBox) -> (r: BoxId)
        requires
            old(self).wf(),
            old(self).boxes@.len() < u32::MAX,
            layout_box.is_fresh(),
        ensures
            final(self).wf(),
            r.0 == old(self).boxes@.len(),
            final(self).boxes@ == old(self).boxes@.push(layout_box),
            final(self).root == old(self).root,
            final(self).viewport == old(self).viewport,
            final(self).node_to_box@ == match (layout_box.pseudo, layout_box.dom_node) {
                (None, Some(node)) => old(self).node_to_box@.insert(node.key(), r),
                _ => old(self).node_to_box@,
            },
    {
        let id = BoxId(self.boxes.len() as u32);
        let ghost before = *self;
        if layout_box.pseudo.is_none() {
            if let Some(node) = layout_box.dom_node {
                self.node_to_box.insert(node.to_key(), id);
            }
        }
        self.boxes.push(layout_box);
        proof {
            assert forall|i: int| 0 <= i < self.boxes@.len() implies #[trigger] self.links_ok(
                i,
            ) by {
                if i < before.boxes@.len() {
                    assert(before.links_ok(i));
                    assert(self.boxes@[i] == before.boxes@[i]);
                }
            }
            assert forall|key: u64| #[trigger] self.node_to_box@.contains_key(key) implies ({
                let b = self.node_to_box@[key];
                &&& self.has(b)
                &&& self.at(b).pseudo is None
                &&& match self.at(b).dom_node {
                    Some(node) => node.key() == key,
                    None => false,
                }
            }) by {
                if before.node_to_box@.contains_key(key) && self.node_to_box@[key]
                    == before.node_to_box@[key] {
                    assert(before.has(before.node_to_box@[key]));
                }
            }
        }
        id
    }

    /// Makes `child`, which has no parent yet, the last child of `parent`.
    pub fn append_child(&mut self, parent: BoxId, child: BoxId)
        requires
            old(self).wf(),
            parent.0 < child.0,
            old(self).has(child),
            old(self).at(child).parent is None,
            old(self).root != Some(child),
        ensures
            final(self).wf(),
            final(self).boxes@.len() == old(self).boxes@.len(),
            final(self).at(parent) == (LayoutBox {
                children: final(self).at(parent).children,
                ..old(self).at(parent)
            }),
            final(self).at(parent).children@ == old(self).at(parent).children@.push(child),
            final(self).at(child) == (LayoutBox { parent: Some(parent), ..old(self).at(child) }),
            forall|i: int|
                0 <= i < old(self).boxes@.len() && i != parent.0 && i != child.0
                    ==> #[trigger] final(self).boxes@[i] == old(self).boxes@[i],
            final(self).root == old(self).root,
            final(self).viewport == old(self).viewport,
            final(self).node_to_box@ == old(self).node_to_box@,
    {
        let n: usize = self.boxes[parent.0 as usize].children.len();
        let ghost kids = self.at(parent).children@;
        self.insert_child(parent, child, n);
        assert(kids.insert(n as int, child) =~= kids.push(child));
    }

    /// Makes `child`, which has no parent yet, a child of `parent`, with `at` children before
    /// it.
    pub fn insert_child(&mut self, parent: BoxId, child: BoxId, at: usize)
        requires
            old(self).wf(),
            parent.0 < child.0,
            old(self).has(child),
            old(self).at(child).parent is None,
            old(self).root != Some(child),
            at <= old(self).at(parent).children@.len(),
        ensures
            final(self).wf(),
            final(self).boxes@.len() == old(self).boxes@.len(),
            final(self).at(parent) == (LayoutBox {
                children: final(self).at(parent).children,
                ..old(self).at(parent)
            }),
            final(self).at(parent).children@ == old(self).at(parent).children@.insert(
                at as int,
                child,
            ),
            final(self).at(child) == (LayoutBox { parent: Some(parent), ..old(self).at(child) }),
            forall|i: int|
                0 <= i < old(self).boxes@.len() && i != parent.0 && i != child.0
                    ==> #[trigger] final(self).boxes@[i] == old(self).boxes@[i],
            final(self).root == old(self).root,
            final(self).viewport == old(self).viewport,
            final(self).node_to_box@ == old(self).node_to_box@,
    {
        let ghost before = *self;
        let p: usize = parent.0 as usize;
        let c: usize = child.0 as usize;
        self.boxes[c].parent = Some(parent);
        self.boxes[p].children.insert(at, child);
        proof {
            let kids = before.at(parent).children@;
            let now = self.at(parent).children@;
            assert(before.links_ok(parent.0 as int));
            assert(!kids.contains(child)) by {
                if kids.contains(child) {
                    let k = choose|k: int| 0 <= k < kids.len() && kids[k] == child;
                    assert(before.boxes@[kids[k].0 as int].parent == Some(parent));
                }
            }
            assert forall|k: int| 0 <= k < now.len() implies #[trigger] now[k] == if k < at {
                kids[k]
            } else if k == at {
                child
            } else {
                kids[k - 1]
            } by {}
            assert(now.no_duplicates()) by {
                assert forall|x: int, y: int|
                    0 <= x < now.len() && 0 <= y < now.len() && x != y implies now[x]
                    != now[y] by {
                    let a = if x < at {
                        x
                    } else {
                        x - 1
                    };
                    let b = if y < at {
                        y
                    } else {
                        y - 1
                    };
                    if x == at {
                        assert(kids.contains(kids[b]));
                    } else if y == at {
                        assert(kids.contains(kids[a]));
                    } else {
                        assert(kids[a] != kids[b]);
                    }
                }
            }
            assert forall|i: int| 0 <= i < self.boxes@.len() implies #[trigger] self.links_ok(
                i,
            ) by {
                assert(before.links_ok(i));
                let b = self.boxes@[i];
                if i == c as int {
                    assert(now[at as int] == child);
                    assert(before.boxes@[i].children@ == b.children@);
                } else {
                    match b.parent {
                        Some(q) => {
                            let old_kids = before.boxes@[q.0 as int].children@;
                            let k = choose|k: int|
                                0 <= k < old_kids.len() && old_kids[k] == BoxId(i as u32);
                            let place = if q == parent && k >= at {
                                k + 1
                            } else {
                                k
                            };
                            assert(self.boxes@[q.0 as int].children@[place] == BoxId(i as u32));
                        },
                        None => {},
                    }
                }
                if i == p as int {
                    assert forall|k: int| 0 <= k < b.children@.len() implies i < (
                    #[trigger] b.children@[k]).0 < self.boxes@.len()
                        && self.boxes@[b.children@[k].0 as int].parent == Some(
                        BoxId(i as u32),
                    ) by {
                        if k < at {
                            assert(b.children@[k] == kids[k]);
                        } else if k > at {
                            assert(b.children@[k] == kids[k - 1]);
                        }
                    }
                }
            }
            assert forall|key: u64| #[trigger] self.node_to_box@.contains_key(key) implies ({
                let id = self.node_to_box@[key];
                &&& self.has(id)
                &&& self.at(id).pseudo is None
                &&& match self.at(id).dom_node {
                    Some(node) => node.key() == key,
                    None => false,
                }
            }) by {
                assert(before.has(before.node_to_box@[key]));
            }
        }
    }

    /// Makes the box a multi-column container of the given columns.
    pub fn set_multicol(&mut self, id: BoxId, mc: MulticolContext)
        requires
            old(self).wf(),
            id.0 < mc.flow.0,
            old(self).has(mc.flow),
        ensures
            final(self).wf(),
            final(self).boxes@ == old(self).boxes@.update(
                id.0 as int,
                LayoutBox { multicol: Some(mc), ..old(self).at(id) },
            ),
            final(self).root == old(self).root,
            final(self).viewport == old(self).viewport,
            final(self).node_to_box@ == old(self).node_to_box@,
    {
        let ghost before = *self;
        self.boxes[id.0 as usize].multicol = Some(mc);
        assert(self.boxes@ =~= before.boxes@.update(
            id.0 as int,
            LayoutBox { multicol: Some(mc), ..before.at(id) },
        ));
        assert forall|i: int| 0 <= i < self.boxes@.len() implies #[trigger] self.links_ok(i) by {
            assert(before.links_ok(i));
            let kids = self.boxes@[i].children@;
            assert(kids == before.boxes@[i].children@);
            assert forall|k: int| 0 <= k < kids.len() implies i < (#[trigger] kids[k]).0
                < self.boxes@.len() && self.boxes@[kids[k].0 as int].parent == Some(
                BoxId(i as u32),
            ) by {
                assert(before.boxes@[kids[k].0 as int].parent == Some(BoxId(i as u32)));
            }
        }
        assert(self.map_ok()) by {
            assert forall|key: u64| #[trigger] self.node_to_box@.contains_key(key) implies ({
                let b = self.node_to_box@[key];
                &&& self.has(b)
                &&& self.at(b).pseudo is None
                &&& match self.at(b).dom_node {
                    Some(node) => node.key() == key,
                    None => false,
                }
            }) by {
                assert(before.node_to_box@.contains_key(key));
            }
        }
    }

    /// The root box.
    pub fn root(&self) -> (r: Option<BoxId>)
        ensures
            r == self.root,
    {
        self.root
    }

    /// Makes `root`, which has no parent, the root box.
    pub fn set_root(&mut self, root: Option<BoxId>)
        requires
            old(self).wf(),
            match root {
                Some(r) => old(self).has(r) && old(self).at(r).parent is None,
                None => true,
            },
        ensures
            final(self).wf(),
            final(self).root == root,
            final(self).boxes == old(self).boxes,
            final(self).node_to_box == old(self).node_to_box,
            final(self).viewport == old(self).viewport,
    {
        let ghost before = *self;
        self.root = root;
        assert forall|i: int| 0 <= i < self.boxes@.len() implies #[trigger] self.links_ok(i) by {
            assert(before.links_ok(i));
        }
        assert(self.map_ok()) by {
            assert(before.map_ok());
            assert forall|key: u64| #[trigger] self.node_to_box@.contains_key(key) implies ({
                let id = self.node_to_box@[key];
                &&& self.has(id)
                &&& self.at(id).pseudo is None
                &&& match self.at(id).dom_node {
                    Some(node) => node.key() == key,
                    None => false,
                }
            }) by {
                assert(before.node_to_box@.contains_key(key));
            }
        }
    }

    /// The box with the id `id`.
    pub fn box_(&self, id: BoxId) -> (r: &LayoutBox)
        requires
            self.has(id),
        ensures
            *r == self.at(id),
    {
        &self.boxes[id.0 as usize]
    }

    /// The box with the id `id`, to be changed.
    pub fn box_mut(&mut self, id: BoxId) -> (r: &mut LayoutBox)
        requires
            old(self).has(id),
        ensures
            *r == old(self).at(id),
            final(self).boxes@ == old(self).boxes@.update(id.0 as int, *final(r)),
            final(self).root == old(self).root,
            final(self).node_to_box == old(self).node_to_box,
            final(self).viewport == old(self).viewport,
    {
        &mut self.boxes[id.0 as usize]
    }

    /// The principal box of `node`, if it has one.
    pub fn box_for_node(&self, node: NodeId) -> (r: Option<BoxId>)
        ensures
            r == self.principal(node),
    {
        match self.node_to_box.get(&node.to_key()) {
            Some(id) => Some(*id),
            None => None,
        }
    }

    /// The multi-column container whose content flow `id` is, if it is one.
    pub open spec fn root_of_flow(&self, id: BoxId) -> Option<BoxId> {
        match self.at(id).parent {
            Some(p) => match self.at(p).multicol {
                Some(mc) => if mc.flow == id {
                    Some(p)
                } else {
                    None
                },
                None => None,
            },
            None => None,
        }
    }

    /// The multi-column container whose content flow `id` is, if it is one.
    pub fn multicol_root_of_flow(&self, id: BoxId) -> (r: Option<BoxId>)
        requires
            self.wf(),
            self.has(id),
        ensures
            r == self.root_of_flow(id),
            match r {
                Some(p) => p.0 < id.0 && self.at(p).multicol is Some,
                None => true,
            },
    {
        assert(self.links_ok(id.0 as int));
        match self.boxes[id.0 as usize].parent {
            Some(p) => match &self.boxes[p.0 as usize].multicol {
                Some(mc) => if mc.flow == id {
                    Some(p)
                } else {
                    None
                },
                None => None,
            },
            None => None,
        }
    }

    /// Replaces the viewport, which layout and its corrections go by.
    pub fn set_viewport(&mut self, viewport: Viewport)
        requires
            old(self).wf(),
        ensures
            *final(self) == (LayoutTree { viewport, ..*old(self) }),
            final(self).wf(),
    {
        self.viewport = viewport;
        proof {
            assert forall|i: int| 0 <= i < self.boxes@.len() implies #[trigger] self.links_ok(i) by {
                assert(old(self).links_ok(i));
            }
        }
    }

    /// The size of the viewport.
    pub fn viewport(&self) -> (r: Viewport)
        ensures
            r == self.viewport,
    {
        self.viewport
    }

    /// How many boxes there are.
    pub fn box_count(&self) -> (r: usize)
        ensures
            r == self.boxes@.len(),
    {
        self.boxes.len()
    }
}

/// The principal box of a node is a box of that node.
pub proof fn principal_box_belongs_to_its_node(tree: &LayoutTree, node: NodeId)
    requires
        tree.wf(),
    ensures
        match tree.principal(node) {
            Some(id) => tree.has(id) && tree.at(id).dom_node == Some(node) && tree.at(id).pseudo
                is None,
            None => true,
        },
{
    match tree.principal(node) {
        Some(id) => {
            assert(tree.node_to_box@.contains_key(node.key()));
            let owner = tree.at(id).dom_node;
            node_keys_are_distinct(owner.unwrap(), node);
        },
        None => {},
    }
}

/// Two boxes are linked to the same boxes and belong to the same node.
pub open spec fn same_links(a: LayoutBox, b: LayoutBox) -> bool {
    &&& a.parent == b.parent
    &&& a.children@ == b.children@
    &&& a.static_parent == b.static_parent
    &&& a.pseudo == b.pseudo
    &&& a.dom_node == b.dom_node
    &&& match (a.multicol, b.multicol) {
        (Some(x), Some(y)) => x.flow == y.flow,
        (None, None) => true,
        _ => false,
    }
}

/// Two trees have the same shape: as many boxes, linked to each other in the same way,
/// with the same root and the same principal boxes.
pub open spec fn same_shape(a: LayoutTree, b: LayoutTree) -> bool {
    &&& a.boxes@.len() == b.boxes@.len()
    &&& a.root == b.root
    &&& a.node_to_box@ == b.node_to_box@
    &&& a.viewport == b.viewport
    &&& forall|i: int|
        0 <= i < a.boxes@.len() ==> same_links(#[trigger] a.boxes@[i], b.boxes@[i])
}

/// The shape of a tree decides whether it is one.
pub proof fn shape_decides_wf(a: LayoutTree, b: LayoutTree)
    requires
        a.wf(),
        same_shape(a, b),
    ensures
        b.wf(),
{
    assert forall|i: int| 0 <= i < b.boxes@.len() implies #[trigger] b.links_ok(i) by {
        assert(a.links_ok(i));
        assert(same_links(a.boxes@[i], b.boxes@[i]));
        let kids = b.boxes@[i].children@;
        match b.boxes@[i].parent {
            Some(p) => {
                assert(same_links(a.boxes@[p.0 as int], b.boxes@[p.0 as int]));
            },
            None => {},
        }
        assert forall|k: int| 0 <= k < kids.len() implies i < (#[trigger] kids[k]).0
            < b.boxes@.len() && b.boxes@[kids[k].0 as int].parent == Some(BoxId(i as u32)) by {
            assert(a.boxes@[i].children@[k] == kids[k]);
            assert(same_links(a.boxes@[kids[k].0 as int], b.boxes@[kids[k].0 as int]));
        }
    }
    match b.root {
        Some(r) => {
            assert(same_links(a.boxes@[r.0 as int], b.boxes@[r.0 as int]));
        },
        None => {},
    }
    assert forall|key: u64| #[trigger] b.node_to_box@.contains_key(key) implies ({
        let id = b.node_to_box@[key];
        &&& b.has(id)
        &&& b.at(id).pseudo is None
        &&& match b.at(id).dom_node {
            Some(node) => node.key() == key,
            None => false,
        }
    }) by {
        assert(a.node_to_box@.contains_key(key));
        let id = a.node_to_box@[key];
        assert(same_links(a.boxes@[id.0 as int], b.boxes@[id.0 as int]));
    }
}

} // verus!
