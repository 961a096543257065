//! The `client*`, `offset*` and `scroll*` boxes of elements, the used values of their box
//! properties, and the scroll container that an element moves with. None of these sees a
//! transform.

use vstd::prelude::*;

use crate::dom::DomTree;
use crate::engine::LayoutEngine;
use crate::geometry::Scene;
use crate::tree::{BoxId, BoxStyle, CssPosition, Layout, LayoutBox, NodeId, Overflow};
use crate::units::{
    held, hold, max, max_i64, Dimension, Dimensions, EdgeDimensions, Point, Rect, Size,
};

verus! {

/// The inner box of an element: the widths of its left and top border, and the size of its
/// padding box.
#[derive(Clone, Copy, PartialEq, Eq, Debug, Structural)]
pub struct ClientBox {
    pub left: i64,
    pub top: i64,
    pub width: i64,
    pub height: i64,
}

/// The border box of an element relative to its offset parent.
#[derive(Clone, Copy, PartialEq, Eq, Debug, Structural)]
pub struct OffsetBox {
    pub parent: Option<NodeId>,
    pub left: i64,
    pub top: i64,
    pub width: i64,
    pub height: i64,
}

/// What an element is scrolled by.
#[derive(Clone, Copy, PartialEq, Eq, Debug, Structural)]
pub enum ScrollParent {
    /// Nothing scrolls it.
    Unscrolled,
    /// The nearest scroll container around it.
    Element(NodeId),
    /// The document.
    DocumentScrollingElement,
}

/// Used insets. `None` stands for the computed value.
#[derive(Clone, Copy, PartialEq, Eq, Debug, Structural)]
pub struct UsedInsets {
    pub top: Option<i64>,
    pub right: Option<i64>,
    pub bottom: Option<i64>,
    pub left: Option<i64>,
}

/// Four lengths around a box.
#[derive(Clone, Copy, PartialEq, Eq, Debug, Structural)]
pub struct Sides {
    pub top: i64,
    pub right: i64,
    pub bottom: i64,
    pub left: i64,
}

/// The used values of an element's box properties.
#[derive(Clone, Copy, PartialEq, Eq, Debug, Structural)]
pub struct UsedBoxValues {
    /// The size of the content box.
    pub width: i64,
    pub height: i64,
    pub margin: Sides,
    pub padding: Sides,
    pub inset: UsedInsets,
    pub position: CssPosition,
}

/// An optional number as an optional position.
pub open spec fn as_position(v: Option<int>) -> Option<i64> {
    match v {
        Some(x) => Some(x as i64),
        None => None,
    }
}

fn widened(v: Option<i32>) -> (r: Option<i64>)
    ensures
        r == match v {
            Some(x) => Some(x as i64),
            None => None,
        },
{
    match v {
        Some(x) => Some(x as i64),
        None => None,
    }
}

/// An axis of an absolutely positioned box: where it landed, unless both insets are given
/// and the size leaves them no room to agree, by being given too or by coming out negative.
pub open spec fn absolute_insets(
    start: Dimension,
    end: Dimension,
    size: Dimension,
    area: int,
    landed: (int, int),
) -> (Option<i64>, Option<i64>) {
    match (start.over(area), end.over(area)) {
        (Some(s), Some(e)) => if !(size is Auto) || area - s - e < 0 {
            (Some(s as i64), Some(e as i64))
        } else {
            (Some(landed.0 as i64), Some(landed.1 as i64))
        },
        _ => (Some(landed.0 as i64), Some(landed.1 as i64)),
    }
}

/// An axis of a relatively positioned box: the offset that its insets make, which for an
/// `auto` inset is the other one's negative.
pub open spec fn relative_insets(start: Option<int>, end: Option<int>) -> (Option<i64>, Option<i64>) {
    match (start, end) {
        (Some(s), Some(e)) => (Some(s as i64), Some(e as i64)),
        (Some(s), None) => (Some(s as i64), Some((-s) as i64)),
        (None, Some(e)) => (Some((-e) as i64), Some(e as i64)),
        (None, None) => (Some(0), Some(0)),
    }
}

/// The used insets of a box, which mean another thing for each `position`: nothing for a
/// static one, the offset that they make for a relative one, lengths (but `auto` as it is)
/// for a sticky one, and where the box landed for an absolute or fixed one. Percentages go
/// by the content box of the containing block, or by its padding box for the last two.
pub open spec fn insets_in_use(
    position: CssPosition,
    inset: EdgeDimensions,
    size: Dimensions,
    content: (int, int),
    padding: (int, int),
    landed: Sides,
) -> UsedInsets {
    match position {
        CssPosition::Static => UsedInsets { top: None, right: None, bottom: None, left: None },
        CssPosition::Absolute | CssPosition::Fixed => {
            let y = absolute_insets(
                inset.top,
                inset.bottom,
                size.height,
                padding.1,
                (landed.top as int, landed.bottom as int),
            );
            let x = absolute_insets(
                inset.left,
                inset.right,
                size.width,
                padding.0,
                (landed.left as int, landed.right as int),
            );
            UsedInsets { top: y.0, right: x.1, bottom: y.1, left: x.0 }
        },
        CssPosition::Relative => {
            let y = relative_insets(inset.top.over(content.1), inset.bottom.over(content.1));
            let x = relative_insets(inset.left.over(content.0), inset.right.over(content.0));
            UsedInsets { top: y.0, right: x.1, bottom: y.1, left: x.0 }
        },
        CssPosition::Sticky => UsedInsets {
            top: as_position(inset.top.over(content.1)),
            right: as_position(inset.right.over(content.0)),
            bottom: as_position(inset.bottom.over(content.1)),
            left: as_position(inset.left.over(content.0)),
        },
    }
}

fn absolute_axis(start: Dimension, end: Dimension, size: Dimension, area: i64, landed: (i64, i64)) -> (r:
    (Option<i64>, Option<i64>))
    requires
        -0x1_0000_0000_0000 <= area <= 0x1_0000_0000_0000,
    ensures
        r == absolute_insets(start, end, size, area as int, (landed.0 as int, landed.1 as int)),
{
    match (start.resolve(area), end.resolve(area)) {
        (Some(s), Some(e)) => if !size.is_auto() || area - (s as i64) - (e as i64) < 0 {
            (Some(s as i64), Some(e as i64))
        } else {
            (Some(landed.0), Some(landed.1))
        },
        _ => (Some(landed.0), Some(landed.1)),
    }
}

fn relative_axis(start: Option<i32>, end: Option<i32>) -> (r: (Option<i64>, Option<i64>))
    ensures
        r == relative_insets(crate::units::opt(start), crate::units::opt(end)),
{
    match (start, end) {
        (Some(s), Some(e)) => (Some(s as i64), Some(e as i64)),
        (Some(s), None) => (Some(s as i64), Some(-(s as i64))),
        (None, Some(e)) => (Some(-(e as i64)), Some(e as i64)),
        (None, None) => (Some(0), Some(0)),
    }
}

/// The used insets of a box.
fn used_insets(
    position: CssPosition,
    inset: EdgeDimensions,
    size: Dimensions,
    content: (i64, i64),
    padding: (i64, i64),
    landed: Sides,
) -> (r: UsedInsets)
    requires
        -0x1_0000_0000_0000 <= padding.0 <= 0x1_0000_0000_0000,
        -0x1_0000_0000_0000 <= padding.1 <= 0x1_0000_0000_0000,
    ensures
        r == insets_in_use(
            position,
            inset,
            size,
            (content.0 as int, content.1 as int),
            (padding.0 as int, padding.1 as int),
            landed,
        ),
{
    match position {
        CssPosition::Static => UsedInsets { top: None, right: None, bottom: None, left: None },
        CssPosition::Absolute | CssPosition::Fixed => {
            let y: (Option<i64>, Option<i64>) = absolute_axis(
                inset.top,
                inset.bottom,
                size.height,
                padding.1,
                (landed.top, landed.bottom),
            );
            let x: (Option<i64>, Option<i64>) = absolute_axis(
                inset.left,
                inset.right,
                size.width,
                padding.0,
                (landed.left, landed.right),
            );
            UsedInsets { top: y.0, right: x.1, bottom: y.1, left: x.0 }
        },
        CssPosition::Relative => {
            let y: (Option<i64>, Option<i64>) = relative_axis(
                inset.top.resolve(content.1),
                inset.bottom.resolve(content.1),
            );
            let x: (Option<i64>, Option<i64>) = relative_axis(
                inset.left.resolve(content.0),
                inset.right.resolve(content.0),
            );
            UsedInsets { top: y.0, right: x.1, bottom: y.1, left: x.0 }
        },
        CssPosition::Sticky => UsedInsets {
            top: widened(inset.top.resolve(content.1)),
            right: widened(inset.right.resolve(content.0)),
            bottom: widened(inset.bottom.resolve(content.1)),
            left: widened(inset.left.resolve(content.0)),
        },
    }
}

/// The used insets of a relatively positioned box are opposite to each other wherever one
/// of them is `auto`, and do not depend on where the box landed.
pub proof fn relative_insets_are_opposite(
    inset: EdgeDimensions,
    size: Dimensions,
    content: (int, int),
    padding: (int, int),
    landed: Sides,
    elsewhere: Sides,
)
    requires
        inset.left is Auto || inset.right is Auto,
    ensures
        ({
            let u = insets_in_use(
                CssPosition::Relative,
                inset,
                size,
                content,
                padding,
                landed,
            );
            &&& u.left is Some && u.right is Some && u.left.unwrap() == -u.right.unwrap()
            &&& u == insets_in_use(
                CssPosition::Relative,
                inset,
                size,
                content,
                padding,
                elsewhere,
            )
        }),
{
}

/// The size of a content box that may have come out negative.
pub open spec fn inner_size(l: Layout) -> (int, int) {
    (
        l.size.width - l.border.left - l.border.right - l.padding.left - l.padding.right,
        l.size.height - l.border.top - l.border.bottom - l.padding.top - l.padding.bottom,
    )
}

fn inner_size_of(l: &Layout) -> (r: (i64, i64))
    ensures
        r.0 == inner_size(*l).0,
        r.1 == inner_size(*l).1,
        -0x4_0000_0000 <= r.0 <= 0x4_0000_0000,
        -0x4_0000_0000 <= r.1 <= 0x4_0000_0000,
{
    (
        l.size.width as i64 - l.border.left as i64 - l.border.right as i64 - l.padding.left as i64
            - l.padding.right as i64,
        l.size.height as i64 - l.border.top as i64 - l.border.bottom as i64 - l.padding.top as i64
            - l.padding.bottom as i64,
    )
}

/// The element is the root element or the body.
pub open spec fn is_root_or_body(dom: DomTree, i: int) -> bool {
    dom.nodes@[i].is_tag("html"@) || dom.nodes@[i].is_tag("body"@)
}

impl Scene {
    /// The padding box of the containing block of `id`: its size, and its position in the
    /// containing block.
    pub open spec fn containing_padding_box(self, id: BoxId) -> ((int, int), (int, int)) {
        match self.tree.at(id).parent {
            Some(p) => {
                let l = self.tree.at(p).final_layout;
                (
                    (
                        l.size.width - l.border.left - l.border.right,
                        l.size.height - l.border.top - l.border.bottom,
                    ),
                    (l.border.left as int, l.border.top as int),
                )
            },
            None => ((self.viewport.width as int, self.viewport.height as int), (0, 0)),
        }
    }

    /// The size of the content box of the containing block of `id`.
    pub open spec fn containing_content_box(self, id: BoxId) -> (int, int) {
        match self.tree.at(id).parent {
            Some(p) => {
                let s = inner_size(self.tree.at(p).final_layout);
                (max(s.0, 0), max(s.1, 0))
            },
            None => (self.viewport.width as int, self.viewport.height as int),
        }
    }

    /// How far the margin box of `id` landed from the edges of its containing block's
    /// padding box.
    pub open spec fn landed(self, id: BoxId) -> Sides {
        let l = self.tree.at(id).final_layout;
        let (size, origin) = self.containing_padding_box(id);
        let x = l.location.x - origin.0;
        let y = l.location.y - origin.1;
        Sides {
            top: (y - l.margin.top) as i64,
            right: (size.0 - (x + l.size.width + l.margin.right)) as i64,
            bottom: (size.1 - (y + l.size.height + l.margin.bottom)) as i64,
            left: (x - l.margin.left) as i64,
        }
    }

    /// The used values of the box properties of `id`.
    pub open spec fn used_values(self, id: BoxId) -> UsedBoxValues {
        let b = self.tree.at(id);
        let l = b.final_layout;
        let inner = inner_size(l);
        UsedBoxValues {
            width: inner.0 as i64,
            height: inner.1 as i64,
            margin: Sides {
                top: l.margin.top as i64,
                right: l.margin.right as i64,
                bottom: l.margin.bottom as i64,
                left: l.margin.left as i64,
            },
            padding: Sides {
                top: l.padding.top as i64,
                right: l.padding.right as i64,
                bottom: l.padding.bottom as i64,
                left: l.padding.left as i64,
            },
            inset: insets_in_use(
                b.position,
                b.style.inset,
                b.style.size,
                self.containing_content_box(id),
                self.containing_padding_box(id).0,
                self.landed(id),
            ),
            position: b.position,
        }
    }

    /// The element at `i` is one that offsets are measured from: it has a box and is
    /// positioned, or part of a table, or the root or body element.
    pub open spec fn measures_offsets(self, dom: DomTree, i: int) -> bool {
        match self.tree.principal(dom.nodes@[i].id) {
            Some(b) => !(self.tree.at(b).position is Static) || dom.nodes@[i].is_tag("td"@)
                || dom.nodes@[i].is_tag("th"@) || dom.nodes@[i].is_tag("table"@)
                || is_root_or_body(dom, i),
            None => false,
        }
    }

    /// The nearest ancestor of the node at `i` that offsets are measured from.
    pub open spec fn offset_ancestor(self, dom: DomTree, i: int) -> Option<int>
        decreases i,
    {
        match dom.nodes@[i].parent {
            Some(p) => if p >= i {
                None
            } else if self.measures_offsets(dom, p as int) {
                Some(p as int)
            } else {
                self.offset_ancestor(dom, p as int)
            },
            None => None,
        }
    }

    /// The offset parent of the node at `i`: none for a fixed box, the root and the body.
    pub open spec fn offset_parent(self, dom: DomTree, i: int, id: BoxId) -> Option<int> {
        if self.tree.at(id).position is Fixed || is_root_or_body(dom, i) {
            None
        } else {
            self.offset_ancestor(dom, i)
        }
    }

    /// Where a box is in the document, without scrolling and transforms.
    pub open spec fn document_origin(self, id: BoxId) -> Point {
        self.plain_up(id.0 as int, Point { x: 0, y: 0 })
    }

    /// Where the offsets of a box with the offset parent `parent` are measured from: the
    /// parent's padding edge. A body that is not positioned counts as the document.
    pub open spec fn offset_origin(self, dom: DomTree, parent: Option<int>) -> Point {
        match parent {
            Some(p) => match self.tree.principal(dom.nodes@[p].id) {
                Some(b) => if dom.nodes@[p].is_tag("body"@) && self.tree.at(b).position is Static {
                    Point { x: 0, y: 0 }
                } else {
                    let l = self.tree.at(b).final_layout;
                    let o = self.document_origin(b);
                    Point { x: held(o.x + l.border.left) as i64, y: held(o.y + l.border.top) as i64 }
                },
                None => Point { x: 0, y: 0 },
            },
            None => Point { x: 0, y: 0 },
        }
    }

    /// A fixed box whose containing block is the viewport: nothing scrolls it.
    pub open spec fn is_stuck(self, id: BoxId) -> bool {
        self.tree.at(id).position is Fixed && self.tree.at(id).parent == self.tree.root
    }

    /// The box is a scroll container of an element that the node at `i` can see.
    pub open spec fn is_scroller_for(self, dom: DomTree, id: BoxId, i: int) -> bool {
        let b = self.tree.at(id);
        &&& b.style.overflow_x.scrolls() || b.style.overflow_y.scrolls()
        &&& match b.dom_node {
            Some(node) => match dom.position(node) {
                Some(c) => dom.shadow_reaches(c as int, i),
                None => false,
            },
            None => false,
        }
    }

    /// What the containing-block walk from `from` up finds for the node at `i`.
    pub open spec fn scroller_above(self, dom: DomTree, from: Option<BoxId>, i: int) -> ScrollParent
        decreases
                match from {
                    Some(b) => b.0 + 1,
                    None => 0,
                },
    {
        match from {
            None => ScrollParent::Unscrolled,
            Some(b) => if self.tree.root == Some(b) {
                ScrollParent::DocumentScrollingElement
            } else if self.is_scroller_for(dom, b, i) {
                ScrollParent::Element(self.tree.at(b).dom_node.unwrap())
            } else if self.is_stuck(b) {
                ScrollParent::Unscrolled
            } else {
                match self.tree.at(b).parent {
                    Some(p) => if p.0 < b.0 {
                        self.scroller_above(dom, Some(p), i)
                    } else {
                        ScrollParent::Unscrolled
                    },
                    None => ScrollParent::Unscrolled,
                }
            },
        }
    }

    /// What scrolls `element`.
    pub open spec fn scroller_of(self, dom: DomTree, element: NodeId) -> ScrollParent {
        match (self.tree.root, self.tree.principal(element), dom.position(element)) {
            (Some(root), Some(id), Some(i)) => if id == root || self.is_stuck(id) {
                ScrollParent::Unscrolled
            } else {
                self.scroller_above(dom, self.tree.at(id).parent, i as int)
            },
            _ => ScrollParent::Unscrolled,
        }
    }
}

impl LayoutEngine {
    /// `clientLeft`, `clientTop`, `clientWidth` and `clientHeight` of `node`. Those of the
    /// document element are the viewport's.
    pub fn client_box(&self, node: NodeId) -> (r: Option<ClientBox>)
        requires
            self.wf(),
        ensures
            r == match self.tree.principal(node) {
                Some(id) => Some(
                    ClientBox {
                        left: if self.tree.root == Some(id) {
                            0
                        } else {
                            self.tree.at(id).final_layout.border.left as i64
                        },
                        top: if self.tree.root == Some(id) {
                            0
                        } else {
                            self.tree.at(id).final_layout.border.top as i64
                        },
                        width: self.scene().client_size(id).0 as i64,
                        height: self.scene().client_size(id).1 as i64,
                    },
                ),
                None => None,
            },
    {
        let id: BoxId = match self.tree.box_for_node(node) {
            Some(id) => id,
            None => {
                return None;
            },
        };
        let size: (i64, i64) = self.client_size(id);
        let is_root: bool = match self.tree.root {
            Some(root) => root == id,
            None => false,
        };
        let l: Layout = self.tree.box_(id).final_layout;
        let (left, top): (i64, i64) = if is_root {
            (0, 0)
        } else {
            (l.border.left as i64, l.border.top as i64)
        };
        Some(ClientBox { left, top, width: size.0, height: size.1 })
    }

    /// `scrollWidth` and `scrollHeight` of `node`.
    pub fn scroll_size(&self, node: NodeId) -> (r: Option<(i64, i64)>)
        requires
            self.wf(),
        ensures
            r == match self.tree.principal(node) {
                Some(id) => Some(
                    (
                        self.scene().scroll_extent(id).0 as i64,
                        self.scene().scroll_extent(id).1 as i64,
                    ),
                ),
                None => None,
            },
    {
        match self.tree.box_for_node(node) {
            Some(id) => Some(self.scroll_extent(id)),
            None => None,
        }
    }

    /// The content box of `node` in the element's own coordinates: it starts at the padding
    /// offsets.
    pub fn content_box(&self, node: NodeId) -> (r: Option<Rect>)
        requires
            self.wf(),
        ensures
            r == match self.tree.principal(node) {
                Some(id) => {
                    let l = self.tree.at(id).final_layout;
                    Some(
                        Rect {
                            x: l.padding.left as i64,
                            y: l.padding.top as i64,
                            width: max(inner_size(l).0, 0) as i64,
                            height: max(inner_size(l).1, 0) as i64,
                        },
                    )
                },
                None => None,
            },
    {
        match self.tree.box_for_node(node) {
            Some(id) => {
                let l: Layout = self.tree.box_(id).final_layout;
                let inner: (i64, i64) = inner_size_of(&l);
                Some(
                    Rect {
                        x: l.padding.left as i64,
                        y: l.padding.top as i64,
                        width: max_i64(inner.0, 0),
                        height: max_i64(inner.1, 0),
                    },
                )
            },
            None => None,
        }
    }

    /// The used values of the box properties of `node`.
    pub fn used_box_values(&self, node: NodeId) -> (r: Option<UsedBoxValues>)
        requires
            self.wf(),
        ensures
            r == match self.tree.principal(node) {
                Some(id) => Some(self.scene().used_values(id)),
                None => None,
            },
    {
        let id: BoxId = match self.tree.box_for_node(node) {
            Some(id) => id,
            None => {
                return None;
            },
        };
        assert(self.tree.links_ok(id.0 as int));
        let b: &LayoutBox = self.tree.box_(id);
        let l: Layout = b.final_layout;
        let (padding, origin, content): ((i64, i64), (i64, i64), (i64, i64)) = match b.parent {
            Some(p) => {
                let pl: Layout = self.tree.box_(p).final_layout;
                let inner: (i64, i64) = inner_size_of(&pl);
                (
                    (
                        pl.size.width as i64 - pl.border.left as i64 - pl.border.right as i64,
                        pl.size.height as i64 - pl.border.top as i64 - pl.border.bottom as i64,
                    ),
                    (pl.border.left as i64, pl.border.top as i64),
                    (max_i64(inner.0, 0), max_i64(inner.1, 0)),
                )
            },
            None => {
                let v: (i64, i64) = (self.viewport.width as i64, self.viewport.height as i64);
                (v, (0, 0), v)
            },
        };
        let x: i64 = l.location.x as i64 - origin.0;
        let y: i64 = l.location.y as i64 - origin.1;
        let landed = Sides {
            top: y - l.margin.top as i64,
            right: padding.0 - (x + l.size.width as i64 + l.margin.right as i64),
            bottom: padding.1 - (y + l.size.height as i64 + l.margin.bottom as i64),
            left: x - l.margin.left as i64,
        };
        let inner: (i64, i64) = inner_size_of(&l);
        Some(
            UsedBoxValues {
                width: inner.0,
                height: inner.1,
                margin: Sides {
                    top: l.margin.top as i64,
                    right: l.margin.right as i64,
                    bottom: l.margin.bottom as i64,
                    left: l.margin.left as i64,
                },
                padding: Sides {
                    top: l.padding.top as i64,
                    right: l.padding.right as i64,
                    bottom: l.padding.bottom as i64,
                    left: l.padding.left as i64,
                },
                inset: used_insets(
                    b.position,
                    b.style.inset,
                    b.style.size,
                    content,
                    padding,
                    landed,
                ),
                position: b.position,
            },
        )
    }

    /// The computed `position` of `node`, if it has a box.
    pub fn node_position(&self, node: NodeId) -> (r: Option<CssPosition>)
        requires
            self.wf(),
        ensures
            r == match self.tree.principal(node) {
                Some(id) => Some(self.tree.at(id).position),
                None => None,
            },
    {
        match self.tree.box_for_node(node) {
            Some(id) => Some(self.tree.box_(id).position),
            None => None,
        }
    }

    /// Whether `node` has `overflow: visible` in both axes, if it has a box.
    pub fn overflow_is_visible(&self, node: NodeId) -> (r: Option<bool>)
        requires
            self.wf(),
        ensures
            r == match self.tree.principal(node) {
                Some(id) => Some(
                    self.tree.at(id).style.overflow_x is Visible && self.tree.at(
                        id,
                    ).style.overflow_y is Visible,
                ),
                None => None,
            },
    {
        match self.tree.box_for_node(node) {
            Some(id) => {
                let style: BoxStyle = self.tree.box_(id).style;
                Some(
                    style.overflow_x == Overflow::Visible && style.overflow_y == Overflow::Visible,
                )
            },
            None => None,
        }
    }

    fn measures_offsets(&self, dom: &DomTree, i: usize) -> (r: bool)
        requires
            self.wf(),
            i < dom.nodes@.len(),
        ensures
            r == self.scene().measures_offsets(*dom, i as int),
    {
        match self.tree.box_for_node(dom.nodes[i].id) {
            Some(b) => self.tree.box_(b).position != CssPosition::Static || dom.nodes[i].tag_is(
                "td",
            ) || dom.nodes[i].tag_is("th") || dom.nodes[i].tag_is("table")
                || dom.nodes[i].tag_is("html") || dom.nodes[i].tag_is("body"),
            None => false,
        }
    }

    fn offset_ancestor(&self, dom: &DomTree, i: usize) -> (r: Option<usize>)
        requires
            self.wf(),
            dom.wf(),
            i < dom.nodes@.len(),
        ensures
            match r {
                Some(p) => p < i && self.scene().offset_ancestor(*dom, i as int) == Some(p as int)
                    && self.scene().measures_offsets(*dom, p as int),
                None => self.scene().offset_ancestor(*dom, i as int) is None,
            },
        decreases i,
    {
        assert(dom.node_ok(i as int));
        match dom.nodes[i].parent {
            Some(p) => if self.measures_offsets(dom, p) {
                Some(p)
            } else {
                self.offset_ancestor(dom, p)
            },
            None => None,
        }
    }

    /// `offsetParent`, `offsetLeft`, `offsetTop`, `offsetWidth` and `offsetHeight` of
    /// `node`.
    pub fn offset_box(&self, dom: &DomTree, node: NodeId) -> (r: Option<OffsetBox>)
        requires
            self.wf(),
            dom.wf(),
        ensures
            match (self.tree.principal(node), dom.position(node)) {
                (Some(id), Some(i)) => {
                    let s = self.scene();
                    let parent = s.offset_parent(*dom, i as int, id);
                    let from = s.offset_origin(*dom, parent);
                    let own = s.document_origin(id);
                    let size = self.tree.at(id).final_layout.size;
                    r == Some(
                        OffsetBox {
                            parent: match parent {
                                Some(p) => Some(dom.nodes@[p].id),
                                None => None,
                            },
                            left: held(own.x - from.x) as i64,
                            top: held(own.y - from.y) as i64,
                            width: size.width as i64,
                            height: size.height as i64,
                        },
                    )
                },
                _ => r is None,
            },
    {
        let id: BoxId = match self.tree.box_for_node(node) {
            Some(id) => id,
            None => {
                return None;
            },
        };
        let i: usize = match dom.find(node) {
            Some(i) => i,
            None => {
                return None;
            },
        };
        let b: &LayoutBox = self.tree.box_(id);
        let size: Size = b.final_layout.size;
        let parent: Option<usize> = if b.position == CssPosition::Fixed || dom.nodes[i].tag_is(
            "html",
        ) || dom.nodes[i].tag_is("body") {
            None
        } else {
            self.offset_ancestor(dom, i)
        };
        let own: Point = self.plain_point_up(id, Point { x: 0, y: 0 });
        let from: Point = match parent {
            Some(p) => match self.tree.box_for_node(dom.nodes[p].id) {
                Some(pb) => if dom.nodes[p].tag_is("body") && self.tree.box_(pb).position
                    == CssPosition::Static {
                    Point { x: 0, y: 0 }
                } else {
                    let l: Layout = self.tree.box_(pb).final_layout;
                    let o: Point = self.plain_point_up(pb, Point { x: 0, y: 0 });
                    Point {
                        x: hold(o.x as i128 + l.border.left as i128),
                        y: hold(o.y as i128 + l.border.top as i128),
                    }
                },
                None => Point { x: 0, y: 0 },
            },
            None => Point { x: 0, y: 0 },
        };
        Some(
            OffsetBox {
                parent: match parent {
                    Some(p) => Some(dom.nodes[p].id),
                    None => None,
                },
                left: hold(own.x as i128 - from.x as i128),
                top: hold(own.y as i128 - from.y as i128),
                width: size.width as i64,
                height: size.height as i64,
            },
        )
    }

    fn stuck_to_viewport(&self, id: BoxId) -> (r: bool)
        requires
            self.tree.has(id),
        ensures
            r == self.scene().is_stuck(id),
    {
        let b: &LayoutBox = self.tree.box_(id);
        b.position == CssPosition::Fixed && match (b.parent, self.tree.root) {
            (Some(p), Some(root)) => p == root,
            (None, None) => true,
            _ => false,
        }
    }

    fn scrolls_for(&self, dom: &DomTree, id: BoxId, i: usize) -> (r: bool)
        requires
            self.tree.has(id),
            dom.wf(),
            i < dom.nodes@.len(),
        ensures
            r == self.scene().is_scroller_for(*dom, id, i as int),
    {
        let b: &LayoutBox = self.tree.box_(id);
        if !b.style.overflow_x.is_scroll_container() && !b.style.overflow_y.is_scroll_container() {
            return false;
        }
        match b.dom_node {
            Some(node) => match dom.find(node) {
                Some(c) => dom.is_shadow_reachable(c, i),
                None => false,
            },
            None => false,
        }
    }

    fn find_scroller(&self, dom: &DomTree, from: Option<BoxId>, i: usize) -> (r: ScrollParent)
        requires
            self.wf(),
            dom.wf(),
            i < dom.nodes@.len(),
            match from {
                Some(b) => self.tree.has(b),
                None => true,
            },
        ensures
            r == self.scene().scroller_above(*dom, from, i as int),
        decreases
                match from {
                    Some(b) => b.0 + 1,
                    None => 0,
                },
    {
        let b: BoxId = match from {
            Some(b) => b,
            None => {
                return ScrollParent::Unscrolled;
            },
        };
        assert(self.tree.links_ok(b.0 as int));
        if let Some(root) = self.tree.root {
            if root == b {
                return ScrollParent::DocumentScrollingElement;
            }
        }
        if self.scrolls_for(dom, b, i) {
            if let Some(node) = self.tree.box_(b).dom_node {
                return ScrollParent::Element(node);
            }
        }
        if self.stuck_to_viewport(b) {
            return ScrollParent::Unscrolled;
        }
        match self.tree.box_(b).parent {
            Some(p) => self.find_scroller(dom, Some(p), i),
            None => ScrollParent::Unscrolled,
        }
    }

    /// What scrolls `element`: the nearest scroll container on its chain of containing
    /// blocks that it can see, or the document. Out-of-flow boxes hang on their containing
    /// block, so that the chain of parents is the chain of containing blocks.
    pub fn scroll_parent(&self, dom: &DomTree, element: NodeId) -> (r: ScrollParent)
        requires
            self.wf(),
            dom.wf(),
        ensures
            r == self.scene().scroller_of(*dom, element),
    {
        let root: BoxId = match self.tree.root {
            Some(root) => root,
            None => {
                return ScrollParent::Unscrolled;
            },
        };
        let id: BoxId = match self.tree.box_for_node(element) {
            Some(id) => id,
            None => {
                return ScrollParent::Unscrolled;
            },
        };
        let i: usize = match dom.find(element) {
            Some(i) => i,
            None => {
                return ScrollParent::Unscrolled;
            },
        };
        if id == root || self.stuck_to_viewport(id) {
            return ScrollParent::Unscrolled;
        }
        assert(self.tree.links_ok(id.0 as int));
        self.find_scroller(dom, self.tree.box_(id).parent, i)
    }
}

/// The margin box of an element and the distances from it to the edges of the padding box of
/// its containing block fill that padding box, in both axes.
pub proof fn where_a_box_landed_fills_its_containing_block(scene: Scene, id: BoxId, p: BoxId)
    requires
        scene.tree.at(id).parent == Some(p),
    ensures
        ({
            let l = scene.tree.at(id).final_layout;
            let around = scene.tree.at(p).final_layout;
            let landed = scene.landed(id);
            &&& landed.left + l.margin.left + l.size.width + l.margin.right + landed.right
                == around.size.width - around.border.left - around.border.right
            &&& landed.top + l.margin.top + l.size.height + l.margin.bottom + landed.bottom
                == around.size.height - around.border.top - around.border.bottom
            &&& around.border.left + landed.left + l.margin.left == l.location.x
            &&& around.border.top + landed.top + l.margin.top == l.location.y
        }),
{
}

/// The used size is that of the content box: with padding and border it makes the size of
/// the box.
pub proof fn used_sizes_are_those_of_the_content_box(scene: Scene, id: BoxId)
    ensures
        ({
            let l = scene.tree.at(id).final_layout;
            let used = scene.used_values(id);
            &&& used.width + used.padding.left + used.padding.right + l.border.left + l.border.right
                == l.size.width
            &&& used.height + used.padding.top + used.padding.bottom + l.border.top
                + l.border.bottom == l.size.height
            &&& used.padding.left == l.padding.left && used.padding.top == l.padding.top
            &&& used.margin.left == l.margin.left && used.margin.right == l.margin.right
            &&& used.margin.top == l.margin.top && used.margin.bottom == l.margin.bottom
        }),
{
}

/// The used insets by `position`. A static box has none. An absolute or fixed one has where
/// it landed wherever an inset is `auto`, and the lengths where both and the size are given.
/// A relative one has the lengths that are given, and a sticky one has those and leaves
/// `auto` as it is.
pub proof fn used_insets_go_by_the_position(
    position: CssPosition,
    inset: EdgeDimensions,
    size: Dimensions,
    content: (int, int),
    padding: (int, int),
    landed: Sides,
)
    ensures
        ({
            let used = insets_in_use(position, inset, size, content, padding, landed);
            let away = position == CssPosition::Absolute || position == CssPosition::Fixed;
            &&& position == CssPosition::Static ==> used.left is None && used.right is None
                && used.top is None && used.bottom is None
            &&& away && (inset.left == Dimension::Auto || inset.right == Dimension::Auto)
                ==> used.left == Some(landed.left) && used.right == Some(landed.right)
            &&& away && (inset.top == Dimension::Auto || inset.bottom == Dimension::Auto)
                ==> used.top == Some(landed.top) && used.bottom == Some(landed.bottom)
            &&& match (inset.left, inset.right) {
                (Dimension::Length(s), Dimension::Length(e)) => {
                    &&& away && size.width != Dimension::Auto ==> used.left == Some(s as i64)
                        && used.right == Some(e as i64)
                    &&& away && size.width == Dimension::Auto && padding.0 - s - e >= 0
                        ==> used.left == Some(landed.left) && used.right == Some(landed.right)
                    &&& position == CssPosition::Relative || position == CssPosition::Sticky
                        ==> used.left == Some(s as i64) && used.right == Some(e as i64)
                },
                (Dimension::Auto, Dimension::Auto) => {
                    &&& position == CssPosition::Relative ==> used.left == Some(0i64) && used.right
                        == Some(0i64)
                    &&& position == CssPosition::Sticky ==> used.left is None && used.right is None
                },
                _ => true,
            }
            &&& match (inset.top, inset.bottom) {
                (Dimension::Length(s), Dimension::Length(e)) => {
                    &&& away && size.height != Dimension::Auto ==> used.top == Some(s as i64)
                        && used.bottom == Some(e as i64)
                    &&& position == CssPosition::Relative || position == CssPosition::Sticky
                        ==> used.top == Some(s as i64) && used.bottom == Some(e as i64)
                },
                (Dimension::Length(s), Dimension::Auto) => position == CssPosition::Relative
                    ==> used.top == Some(s as i64) && used.bottom == Some((-s) as i64),
                (Dimension::Auto, Dimension::Length(e)) => position == CssPosition::Relative
                    ==> used.top == Some((-e) as i64) && used.bottom == Some(e as i64),
                (Dimension::Auto, Dimension::Auto) => {
                    &&& position == CssPosition::Relative ==> used.top == Some(0i64) && used.bottom
                        == Some(0i64)
                    &&& position == CssPosition::Sticky ==> used.top is None && used.bottom is None
                },
                _ => true,
            }
        }),
{
}

/// The nodes of `chain` are around the node at `i`, the innermost first: each is the parent
/// of the one before.
pub open spec fn is_ancestry(dom: DomTree, i: int, chain: Seq<int>) -> bool
    decreases chain.len(),
{
    chain.len() > 0 ==> {
        &&& chain[0] < i
        &&& dom.nodes@[i].parent == Some(chain[0] as usize)
        &&& 0 <= chain[0] <= usize::MAX
        &&& is_ancestry(dom, chain[0], chain.skip(1))
    }
}

/// Offsets are measured from the nearest element around a box that has a box itself and is
/// positioned, a table or one of its cells, or the body or root element.
pub proof fn offsets_are_measured_from_the_nearest(
    scene: Scene,
    dom: DomTree,
    i: int,
    chain: Seq<int>,
    b: BoxId,
)
    requires
        chain.len() > 0,
        is_ancestry(dom, i, chain),
        scene.tree.principal(dom.nodes@[chain.last()].id) == Some(b),
        ({
            let n = dom.nodes@[chain.last()];
            scene.tree.at(b).position != CssPosition::Static || n.is_tag("td"@) || n.is_tag("th"@)
                || n.is_tag("table"@) || n.is_tag("body"@) || n.is_tag("html"@)
        }),
        forall|k: int|
            0 <= k < chain.len() - 1 ==> {
                let n = dom.nodes@[#[trigger] chain[k]];
                match scene.tree.principal(n.id) {
                    Some(x) => scene.tree.at(x).position == CssPosition::Static && !n.is_tag("td"@)
                        && !n.is_tag("th"@) && !n.is_tag("table"@) && !n.is_tag("body"@)
                        && !n.is_tag("html"@),
                    None => true,
                }
            },
    ensures
        scene.offset_ancestor(dom, i) == Some(chain.last()),
    decreases chain.len(),
{
    let p = chain[0];
    if chain.len() > 1 {
        let rest = chain.skip(1);
        assert(rest.last() == chain.last());
        assert forall|k: int| 0 <= k < rest.len() - 1 implies ({
            let n = dom.nodes@[#[trigger] rest[k]];
            match scene.tree.principal(n.id) {
                Some(x) => scene.tree.at(x).position == CssPosition::Static && !n.is_tag("td"@)
                    && !n.is_tag("th"@) && !n.is_tag("table"@) && !n.is_tag("body"@) && !n.is_tag(
                    "html"@,
                ),
                None => true,
            }
        }) by {
            assert(rest[k] == chain[k + 1]);
        }
        offsets_are_measured_from_the_nearest(scene, dom, p, rest, b);
        assert(chain[0] == p);
        assert(!scene.measures_offsets(dom, p));
    } else {
        assert(scene.measures_offsets(dom, p));
    }
}

} // verus!
