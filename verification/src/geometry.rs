//! Geometry queries: where elements are shown, which element a point hits, and how far
//! things scroll.
//!
//! Positions are found by walking up the box tree. A box's transform applies first, in its
//! own space; then its location in its parent, the parent's scroll offset, and, where the
//! parent is the flow of a multi-column container, the move into the column that shows the
//! position. The `offset*`, `client*` and `scroll*` families leave transforms out.

use vstd::prelude::*;

use crate::engine::LayoutEngine;
use crate::multicol::{map_flow_point, shown_at};
use crate::overflow::{ends_positive, logical_end_is_positive};
use crate::scroll::{next_version, ScrollResult, Scrolls};
use crate::tree::{
    node_keys_are_distinct, BoxId, BoxStyle, Layout, LayoutBox, LayoutTree, NodeId, Overflow,
    Transform2D, Viewport,
};
use crate::units::{
    clamp_i64, clamped, held, hold, max, max_i64, min, min_i64, Point, Rect, Size, FAR,
};

verus! {

broadcast use vstd::std_specs::hash::group_hash_axioms;

/// What geometry depends on: the boxes, the viewport and the scroll positions.
#[verifier::ext_equal]
pub ghost struct Scene {
    pub tree: LayoutTree,
    pub viewport: Viewport,
    pub scrolls: Scrolls,
}

/// Four corners, in the order top left, top right, bottom right, bottom left of the
/// rectangle that they come from.
#[derive(Clone, Copy, PartialEq, Eq, Debug, Structural)]
pub struct Quad {
    pub top_left: Point,
    pub top_right: Point,
    pub bottom_right: Point,
    pub bottom_left: Point,
}

/// The corners of an upright rectangle.
pub open spec fn corners(r: Rect) -> Quad {
    let right = held(r.x + r.width) as i64;
    let bottom = held(r.y + r.height) as i64;
    Quad {
        top_left: Point { x: r.x, y: r.y },
        top_right: Point { x: right, y: r.y },
        bottom_right: Point { x: right, y: bottom },
        bottom_left: Point { x: r.x, y: bottom },
    }
}

pub(crate) fn corners_of(r: Rect) -> (q: Quad)
    ensures
        q == corners(r),
{
    let right: i64 = hold(r.x as i128 + r.width as i128);
    let bottom: i64 = hold(r.y as i128 + r.height as i128);
    Quad {
        top_left: Point { x: r.x, y: r.y },
        top_right: Point { x: right, y: r.y },
        bottom_right: Point { x: right, y: bottom },
        bottom_left: Point { x: r.x, y: bottom },
    }
}

impl Quad {
    /// The corners moved by `(dx, dy)`.
    pub open spec fn moved(self, dx: int, dy: int) -> Quad {
        Quad {
            top_left: self.top_left.moved(dx, dy),
            top_right: self.top_right.moved(dx, dy),
            bottom_right: self.bottom_right.moved(dx, dy),
            bottom_left: self.bottom_left.moved(dx, dy),
        }
    }

    fn shift(self, dx: i64, dy: i64) -> (r: Quad)
        ensures
            r == self.moved(dx as int, dy as int),
    {
        Quad {
            top_left: self.top_left.shift(dx, dy),
            top_right: self.top_right.shift(dx, dy),
            bottom_right: self.bottom_right.shift(dx, dy),
            bottom_left: self.bottom_left.shift(dx, dy),
        }
    }

    /// The images of the corners.
    pub open spec fn transformed(self, t: Option<Transform2D>) -> Quad {
        match t {
            Some(m) => Quad {
                top_left: m.image(self.top_left),
                top_right: m.image(self.top_right),
                bottom_right: m.image(self.bottom_right),
                bottom_left: m.image(self.bottom_left),
            },
            None => self,
        }
    }

    fn transform(self, t: Option<Transform2D>) -> (r: Quad)
        ensures
            r == self.transformed(t),
    {
        match t {
            Some(m) => Quad {
                top_left: m.apply(self.top_left),
                top_right: m.apply(self.top_right),
                bottom_right: m.apply(self.bottom_right),
                bottom_left: m.apply(self.bottom_left),
            },
            None => self,
        }
    }

    /// The smallest upright rectangle around the corners.
    pub open spec fn bounds(self) -> Rect {
        let (a, b, c, d) = (self.top_left, self.top_right, self.bottom_right, self.bottom_left);
        Rect::between(
            min(min(a.x as int, b.x as int), min(c.x as int, d.x as int)),
            min(min(a.y as int, b.y as int), min(c.y as int, d.y as int)),
            max(max(a.x as int, b.x as int), max(c.x as int, d.x as int)),
            max(max(a.y as int, b.y as int), max(c.y as int, d.y as int)),
        )
    }

    /// The smallest upright rectangle around the corners.
    pub fn bounding_rect(self) -> (r: Rect)
        ensures
            r == self.bounds(),
            r.in_range(),
    {
        let (a, b, c, d): (Point, Point, Point, Point) = (
            self.top_left,
            self.top_right,
            self.bottom_right,
            self.bottom_left,
        );
        Rect::from_corners(
            min_i64(min_i64(a.x, b.x), min_i64(c.x, d.x)) as i128,
            min_i64(min_i64(a.y, b.y), min_i64(c.y, d.y)) as i128,
            max_i64(max_i64(a.x, b.x), max_i64(c.x, d.x)) as i128,
            max_i64(max_i64(a.y, b.y), max_i64(c.y, d.y)) as i128,
        )
    }
}

/// The bounding rectangle of an upright rectangle's corners is the rectangle.
pub proof fn bounds_of_corners_are_the_rectangle(r: Rect)
    requires
        r.in_range(),
        r.width >= 0,
        r.height >= 0,
    ensures
        corners(r).bounds() == r,
{
}

/// The scroll range of a content extent in a view.
pub open spec fn scroll_range(content: int, view: int) -> int {
    max(content - view, 0)
}

impl Scene {
    /// The size of the box's padding box, or of the viewport for the root box.
    pub open spec fn client_size(self, id: BoxId) -> (int, int) {
        if self.tree.root == Some(id) {
            (self.viewport.width as int, self.viewport.height as int)
        } else {
            let l = self.tree.at(id).final_layout;
            (
                l.size.width - l.border.left - l.border.right,
                l.size.height - l.border.top - l.border.bottom,
            )
        }
    }

    /// The extent that scrolling can reach, and no less than the client size. Only what lies
    /// past the end of an axis counts: what lies before its start is out of reach.
    pub open spec fn scroll_extent(self, id: BoxId) -> (int, int) {
        let b = self.tree.at(id);
        let l = b.final_layout;
        let o = b.scrollable_overflow;
        let ends = ends_positive(b.style);
        let client = self.client_size(id);
        (
            max(
                held(
                    if ends.0 {
                        o.right() - l.border.left
                    } else {
                        l.size.width - l.border.right - o.x
                    },
                ),
                client.0,
            ),
            max(
                held(
                    if ends.1 {
                        o.bottom() - l.border.top
                    } else {
                        l.size.height - l.border.bottom - o.y
                    },
                ),
                client.1,
            ),
        )
    }

    /// How far the box can be scrolled: not at all in an axis in which it is no scroll
    /// container.
    pub open spec fn max_scroll(self, id: BoxId) -> (int, int) {
        let b = self.tree.at(id);
        match b.dom_node {
            Some(node) => match self.tree.principal(node) {
                Some(p) => {
                    let extent = self.scroll_extent(p);
                    let client = self.client_size(id);
                    (
                        if b.style.overflow_x.scrolls() {
                            scroll_range(extent.0, client.0)
                        } else {
                            0
                        },
                        if b.style.overflow_y.scrolls() {
                            scroll_range(extent.1, client.1)
                        } else {
                            0
                        },
                    )
                },
                None => (0, 0),
            },
            None => (0, 0),
        }
    }

    /// How far the box is scrolled.
    pub open spec fn scrolled(self, id: BoxId) -> Point {
        match self.tree.at(id).dom_node {
            Some(node) => if self.scrolls.offsets.contains_key(node.key()) {
                let stored = self.scrolls.offsets[node.key()];
                let most = self.max_scroll(id);
                Point {
                    x: clamped(stored.x as int, 0, most.0) as i64,
                    y: clamped(stored.y as int, 0, most.1) as i64,
                }
            } else {
                Point { x: 0, y: 0 }
            },
            None => Point { x: 0, y: 0 },
        }
    }

    /// The far edges of the document's scrolling area: those of what scrolling can reach in
    /// the root and of its border box.
    pub open spec fn content_extent(self) -> (int, int) {
        match self.tree.root {
            Some(root) => {
                let b = self.tree.at(root);
                let l = b.final_layout;
                let border_box = Rect {
                    x: 0,
                    y: 0,
                    width: l.size.width as i64,
                    height: l.size.height as i64,
                };
                let o = b.scrollable_overflow;
                let right = if o.empty() {
                    border_box.right()
                } else if border_box.empty() {
                    o.right()
                } else {
                    max(o.right(), border_box.right())
                };
                let bottom = if o.empty() {
                    border_box.bottom()
                } else if border_box.empty() {
                    o.bottom()
                } else {
                    max(o.bottom(), border_box.bottom())
                };
                (held(right + l.location.x), held(bottom + l.location.y))
            },
            None => (0, 0),
        }
    }

    /// How far the document can be scrolled. A root that hides or clips an axis pins it.
    pub open spec fn max_viewport_scroll(self) -> (int, int) {
        match self.tree.root {
            Some(root) => {
                let style = self.tree.at(root).style;
                let extent = self.content_extent();
                (
                    if style.overflow_x is Hidden || style.overflow_x is Clip {
                        0
                    } else {
                        scroll_range(extent.0, self.viewport.width as int)
                    },
                    if style.overflow_y is Hidden || style.overflow_y is Clip {
                        0
                    } else {
                        scroll_range(extent.1, self.viewport.height as int)
                    },
                )
            },
            None => (0, 0),
        }
    }

    /// How far the document is scrolled.
    pub open spec fn viewport_scrolled(self) -> Point {
        let most = self.max_viewport_scroll();
        Point {
            x: clamped(self.scrolls.viewport.x as int, 0, most.0) as i64,
            y: clamped(self.scrolls.viewport.y as int, 0, most.1) as i64,
        }
    }

    /// Corners in the space of the content of the box `id`, in viewport coordinates. In the
    /// flow of a multi-column container they move as one, with the first, into the column
    /// that shows it.
    pub open spec fn content_up(self, id: int, q: Quad) -> Quad
        decreases id, 1int,
    {
        match self.tree.root_of_flow(BoxId(id as u32)) {
            Some(root) => match self.tree.at(root).multicol {
                Some(mc) => {
                    let to = shown_at(mc.columns@, q.top_left.x, q.top_left.y);
                    self.box_up(id, q.moved(to.0 - q.top_left.x, to.1 - q.top_left.y))
                },
                None => self.box_up(id, q),
            },
            None => self.box_up(id, q),
        }
    }

    /// Corners in the space of the box `id`, in viewport coordinates.
    pub open spec fn box_up(self, id: int, q: Quad) -> Quad
        decreases id, 0int,
    {
        let b = self.tree.boxes@[id];
        let at = b.final_layout.location;
        let inside = q.transformed(b.transform).moved(at.x as int, at.y as int);
        match b.parent {
            Some(p) => if p.0 < id {
                let s = self.scrolled(p);
                self.content_up(p.0 as int, inside.moved(-s.x, -s.y))
            } else {
                inside
            },
            None => {
                let v = self.viewport_scrolled();
                inside.moved(-v.x, -v.y)
            },
        }
    }

    /// A position in the content of the box `id`, in document coordinates, without scrolling
    /// and transforms.
    pub open spec fn plain_content_up(self, id: int, p: Point) -> Point
        decreases id, 1int,
    {
        match self.tree.root_of_flow(BoxId(id as u32)) {
            Some(root) => match self.tree.at(root).multicol {
                Some(mc) => {
                    let to = shown_at(mc.columns@, p.x, p.y);
                    self.plain_up(id, Point { x: to.0 as i64, y: to.1 as i64 })
                },
                None => self.plain_up(id, p),
            },
            None => self.plain_up(id, p),
        }
    }

    /// A position in the space of the box `id`, in document coordinates, without scrolling
    /// and transforms.
    pub open spec fn plain_up(self, id: int, p: Point) -> Point
        decreases id, 0int,
    {
        let b = self.tree.boxes@[id];
        let at = b.final_layout.location;
        let inside = p.moved(at.x as int, at.y as int);
        match b.parent {
            Some(q) => if q.0 < id {
                self.plain_content_up(q.0 as int, inside)
            } else {
                inside
            },
            None => inside,
        }
    }

    /// The corners of the border box of the box `id`, in viewport coordinates.
    pub open spec fn border_quad(self, id: BoxId) -> Quad {
        let s = self.tree.at(id).final_layout.size;
        self.box_up(
            id.0 as int,
            corners(Rect { x: 0, y: 0, width: s.width as i64, height: s.height as i64 }),
        )
    }

    /// The padding box of a box in its own space, no smaller than nothing.
    pub open spec fn padding_rect(self, id: BoxId) -> Rect {
        let l = self.tree.at(id).final_layout;
        Rect {
            x: l.border.left as i64,
            y: l.border.top as i64,
            width: max(l.size.width - l.border.left - l.border.right, 0) as i64,
            height: max(l.size.height - l.border.top - l.border.bottom, 0) as i64,
        }
    }

    /// The corners of the padding box of the box `id`, in viewport coordinates.
    pub open spec fn padding_quad(self, id: BoxId) -> Quad {
        self.box_up(id.0 as int, corners(self.padding_rect(id)))
    }
}

impl LayoutEngine {
    /// What geometry depends on.
    pub open spec fn scene(&self) -> Scene {
        Scene { tree: self.tree, viewport: self.viewport, scrolls: self.scroll@ }
    }

    pub(crate) fn client_size(&self, id: BoxId) -> (r: (i64, i64))
        requires
            self.tree.has(id),
        ensures
            r.0 == self.scene().client_size(id).0,
            r.1 == self.scene().client_size(id).1,
            -0x2_0000_0000 <= r.0 <= 0x2_0000_0000,
            -0x2_0000_0000 <= r.1 <= 0x2_0000_0000,
    {
        if let Some(root) = self.tree.root {
            if root == id {
                return (self.viewport.width as i64, self.viewport.height as i64);
            }
        }
        let l: Layout = self.tree.box_(id).final_layout;
        (
            l.size.width as i64 - l.border.left as i64 - l.border.right as i64,
            l.size.height as i64 - l.border.top as i64 - l.border.bottom as i64,
        )
    }

    pub(crate) fn scroll_extent(&self, id: BoxId) -> (r: (i64, i64))
        requires
            self.tree.has(id),
        ensures
            r.0 == self.scene().scroll_extent(id).0,
            r.1 == self.scene().scroll_extent(id).1,
            -FAR <= r.0 <= FAR,
            -FAR <= r.1 <= FAR,
    {
        let b: &LayoutBox = self.tree.box_(id);
        let l: Layout = b.final_layout;
        let o: Rect = b.scrollable_overflow;
        let ends: (bool, bool) = logical_end_is_positive(&b.style);
        let client: (i64, i64) = self.client_size(id);
        let width: i64 = if ends.0 {
            hold(o.x as i128 + o.width as i128 - l.border.left as i128)
        } else {
            hold(l.size.width as i128 - l.border.right as i128 - o.x as i128)
        };
        let height: i64 = if ends.1 {
            hold(o.y as i128 + o.height as i128 - l.border.top as i128)
        } else {
            hold(l.size.height as i128 - l.border.bottom as i128 - o.y as i128)
        };
        (max_i64(width, client.0), max_i64(height, client.1))
    }

    /// How far the box can be scrolled in each axis.
    fn max_scroll(&self, id: BoxId) -> (r: (i64, i64))
        requires
            self.wf(),
            self.tree.has(id),
        ensures
            r.0 == self.scene().max_scroll(id).0,
            r.1 == self.scene().max_scroll(id).1,
            0 <= r.0,
            0 <= r.1,
    {
        let b: &LayoutBox = self.tree.box_(id);
        let node: NodeId = match b.dom_node {
            Some(n) => n,
            None => {
                return (0, 0);
            },
        };
        let p: BoxId = match self.tree.box_for_node(node) {
            Some(p) => p,
            None => {
                return (0, 0);
            },
        };
        let extent: (i64, i64) = self.scroll_extent(p);
        let client: (i64, i64) = self.client_size(id);
        let x: i64 = if b.style.overflow_x.is_scroll_container() {
            max_i64(extent.0 - client.0, 0)
        } else {
            0
        };
        let y: i64 = if b.style.overflow_y.is_scroll_container() {
            max_i64(extent.1 - client.1, 0)
        } else {
            0
        };
        (x, y)
    }

    /// How far the box is scrolled: not at all if it is no scroll container.
    pub(crate) fn box_scroll_offset(&self, id: BoxId) -> (r: Point)
        requires
            self.wf(),
            self.tree.has(id),
        ensures
            r == self.scene().scrolled(id),
            0 <= r.x,
            0 <= r.y,
    {
        let node: NodeId = match self.tree.box_(id).dom_node {
            Some(n) => n,
            None => {
                return Point { x: 0, y: 0 };
            },
        };
        match self.scroll.offsets.get(&node.to_key()) {
            Some(stored) => {
                let most: (i64, i64) = self.max_scroll(id);
                Point { x: clamp_i64(stored.x, 0, most.0), y: clamp_i64(stored.y, 0, most.1) }
            },
            None => Point { x: 0, y: 0 },
        }
    }

    /// The far edges of the document's scrolling area. The border box of the root counts
    /// beside what scrolling can reach in it, or a border of the root would be lost.
    pub fn document_content_extent(&self) -> (r: (i64, i64))
        requires
            self.wf(),
        ensures
            r.0 == self.scene().content_extent().0,
            r.1 == self.scene().content_extent().1,
            -FAR <= r.0 <= FAR,
            -FAR <= r.1 <= FAR,
    {
        let root: BoxId = match self.tree.root {
            Some(root) => root,
            None => {
                return (0, 0);
            },
        };
        let b: &LayoutBox = self.tree.box_(root);
        let l: Layout = b.final_layout;
        let o: Rect = b.scrollable_overflow;
        let o_empty: bool = o.width <= 0 || o.height <= 0;
        let box_empty: bool = l.size.width <= 0 || l.size.height <= 0;
        let o_right: i128 = o.x as i128 + o.width as i128;
        let o_bottom: i128 = o.y as i128 + o.height as i128;
        let width: i128 = l.size.width as i128;
        let height: i128 = l.size.height as i128;
        let right: i128 = if o_empty {
            width
        } else if box_empty {
            o_right
        } else if o_right >= width {
            o_right
        } else {
            width
        };
        let bottom: i128 = if o_empty {
            height
        } else if box_empty {
            o_bottom
        } else if o_bottom >= height {
            o_bottom
        } else {
            height
        };
        (hold(right + l.location.x as i128), hold(bottom + l.location.y as i128))
    }

    fn max_viewport_scroll(&self) -> (r: (i64, i64))
        requires
            self.wf(),
        ensures
            r.0 == self.scene().max_viewport_scroll().0,
            r.1 == self.scene().max_viewport_scroll().1,
            0 <= r.0,
            0 <= r.1,
    {
        let root: BoxId = match self.tree.root {
            Some(root) => root,
            None => {
                return (0, 0);
            },
        };
        let style: BoxStyle = self.tree.box_(root).style;
        let extent: (i64, i64) = self.document_content_extent();
        let x: i64 = if matches!(style.overflow_x, Overflow::Hidden | Overflow::Clip) {
            0
        } else {
            max_i64(extent.0 - self.viewport.width as i64, 0)
        };
        let y: i64 = if matches!(style.overflow_y, Overflow::Hidden | Overflow::Clip) {
            0
        } else {
            max_i64(extent.1 - self.viewport.height as i64, 0)
        };
        (x, y)
    }

    /// How far the document is scrolled.
    pub fn viewport_scroll(&self) -> (r: Point)
        requires
            self.wf(),
        ensures
            r == self.scene().viewport_scrolled(),
            0 <= r.x,
            0 <= r.y,
    {
        let most: (i64, i64) = self.max_viewport_scroll();
        Point {
            x: clamp_i64(self.scroll.viewport.x, 0, most.0),
            y: clamp_i64(self.scroll.viewport.y, 0, most.1),
        }
    }

    /// How far `node` is scrolled.
    pub fn scroll_offset(&self, node: NodeId) -> (r: Point)
        requires
            self.wf(),
        ensures
            r == match self.tree.principal(node) {
                Some(id) => self.scene().scrolled(id),
                None => Point { x: 0, y: 0 },
            },
    {
        match self.tree.box_for_node(node) {
            Some(id) => self.box_scroll_offset(id),
            None => Point { x: 0, y: 0 },
        }
    }

    /// Scrolls `node`, within its range.
    pub fn set_scroll_offset(&mut self, node: NodeId, x: i64, y: i64) -> (r: ScrollResult)
        requires
            old(self).wf(),
        ensures
            final(self).wf(),
            match old(self).tree.principal(node) {
                Some(id) => {
                    let most = old(self).scene().max_scroll(id);
                    let to = Point {
                        x: clamped(x as int, 0, most.0) as i64,
                        y: clamped(y as int, 0, most.1) as i64,
                    };
                    &&& r.x == to.x
                    &&& r.y == to.y
                    &&& r.changed == (to != old(self).scene().scrolled(id))
                    &&& final(self).scroll@ == (Scrolls {
                        offsets: old(self).scroll@.offsets.insert(node.key(), to),
                        viewport: old(self).scroll@.viewport,
                    })
                    &&& final(self).scroll.element_version == if r.changed {
                        next_version(old(self).scroll.element_version)
                    } else {
                        old(self).scroll.element_version
                    }
                    &&& final(self).scroll.document_version == old(self).scroll.document_version
                    &&& *final(self) == (LayoutEngine {
                        scroll: final(self).scroll,
                        ..*old(self)
                    })
                },
                None => r == (ScrollResult { x: 0, y: 0, changed: false }) && *final(self) == *old(
                    self,
                ),
            },
    {
        let id: BoxId = match self.tree.box_for_node(node) {
            Some(id) => id,
            None => {
                return ScrollResult { x: 0, y: 0, changed: false };
            },
        };
        let before: Point = self.box_scroll_offset(id);
        let most: (i64, i64) = self.max_scroll(id);
        let to = Point { x: clamp_i64(x, 0, most.0), y: clamp_i64(y, 0, most.1) };
        self.scroll.store(node, to);
        let changed: bool = to != before;
        if changed {
            self.scroll.note_element_changed();
        }
        ScrollResult { x: to.x, y: to.y, changed }
    }

    /// Scrolls the document, within its range.
    pub fn set_viewport_scroll(&mut self, x: i64, y: i64) -> (r: ScrollResult)
        requires
            old(self).wf(),
        ensures
            final(self).wf(),
            ({
                let most = old(self).scene().max_viewport_scroll();
                let to = Point {
                    x: clamped(x as int, 0, most.0) as i64,
                    y: clamped(y as int, 0, most.1) as i64,
                };
                &&& r.x == to.x
                &&& r.y == to.y
                &&& r.changed == (to != old(self).scene().viewport_scrolled())
                &&& final(self).scroll@ == (Scrolls { viewport: to, ..old(self).scroll@ })
                &&& final(self).scroll.document_version == if r.changed {
                    next_version(old(self).scroll.document_version)
                } else {
                    old(self).scroll.document_version
                }
                &&& final(self).scroll.element_version == old(self).scroll.element_version
                &&& *final(self) == (LayoutEngine { scroll: final(self).scroll, ..*old(self) })
            }),
    {
        let before: Point = self.viewport_scroll();
        let most: (i64, i64) = self.max_viewport_scroll();
        let to = Point { x: clamp_i64(x, 0, most.0), y: clamp_i64(y, 0, most.1) };
        self.scroll.viewport = to;
        let changed: bool = to != before;
        if changed {
            self.scroll.note_document_changed();
        }
        ScrollResult { x: to.x, y: to.y, changed }
    }

    pub(crate) fn content_quad_up(&self, id: BoxId, q: Quad) -> (r: Quad)
        requires
            self.wf(),
            self.tree.has(id),
        ensures
            r == self.scene().content_up(id.0 as int, q),
        decreases id.0, 1int,
    {
        match self.tree.multicol_root_of_flow(id) {
            Some(root) => match &self.tree.box_(root).multicol {
                Some(mc) => {
                    let to: (i64, i64) = map_flow_point(mc, q.top_left.x, q.top_left.y);
                    let dx: i128 = to.0 as i128 - q.top_left.x as i128;
                    let dy: i128 = to.1 as i128 - q.top_left.y as i128;
                    let moved = move_quad(q, dx, dy);
                    self.box_quad_up(id, moved)
                },
                None => self.box_quad_up(id, q),
            },
            None => self.box_quad_up(id, q),
        }
    }

    pub(crate) fn box_quad_up(&self, id: BoxId, q: Quad) -> (r: Quad)
        requires
            self.wf(),
            self.tree.has(id),
        ensures
            r == self.scene().box_up(id.0 as int, q),
        decreases id.0, 0int,
    {
        assert(self.tree.links_ok(id.0 as int));
        let b: &LayoutBox = self.tree.box_(id);
        let at = b.final_layout.location;
        let inside: Quad = q.transform(b.transform).shift(at.x as i64, at.y as i64);
        match b.parent {
            Some(p) => {
                let s: Point = self.box_scroll_offset(p);
                self.content_quad_up(p, inside.shift(-s.x, -s.y))
            },
            None => {
                let v: Point = self.viewport_scroll();
                inside.shift(-v.x, -v.y)
            },
        }
    }

    fn plain_content_point_up(&self, id: BoxId, p: Point) -> (r: Point)
        requires
            self.wf(),
            self.tree.has(id),
        ensures
            r == self.scene().plain_content_up(id.0 as int, p),
        decreases id.0, 1int,
    {
        match self.tree.multicol_root_of_flow(id) {
            Some(root) => match &self.tree.box_(root).multicol {
                Some(mc) => {
                    let to: (i64, i64) = map_flow_point(mc, p.x, p.y);
                    self.plain_point_up(id, Point { x: to.0, y: to.1 })
                },
                None => self.plain_point_up(id, p),
            },
            None => self.plain_point_up(id, p),
        }
    }

    pub(crate) fn plain_point_up(&self, id: BoxId, p: Point) -> (r: Point)
        requires
            self.wf(),
            self.tree.has(id),
        ensures
            r == self.scene().plain_up(id.0 as int, p),
        decreases id.0, 0int,
    {
        assert(self.tree.links_ok(id.0 as int));
        let b: &LayoutBox = self.tree.box_(id);
        let at = b.final_layout.location;
        let inside: Point = p.shift(at.x as i64, at.y as i64);
        match b.parent {
            Some(q) => self.plain_content_point_up(q, inside),
            None => inside,
        }
    }

    pub(crate) fn border_quad(&self, id: BoxId) -> (r: Quad)
        requires
            self.wf(),
            self.tree.has(id),
        ensures
            r == self.scene().border_quad(id),
    {
        let s: Size = self.tree.box_(id).final_layout.size;
        self.box_quad_up(
            id,
            corners_of(Rect { x: 0, y: 0, width: s.width as i64, height: s.height as i64 }),
        )
    }

    /// The border box of `node` as it is shown, in viewport coordinates.
    pub fn border_box(&self, node: NodeId) -> (r: Option<Rect>)
        requires
            self.wf(),
        ensures
            r == match self.tree.principal(node) {
                Some(id) => Some(self.scene().border_quad(id).bounds()),
                None => None,
            },
    {
        match self.tree.box_for_node(node) {
            Some(id) => Some(self.border_quad(id).bounding_rect()),
            None => None,
        }
    }

    /// The padding box of `node` as it is shown, in viewport coordinates.
    pub fn padding_box(&self, node: NodeId) -> (r: Option<Rect>)
        requires
            self.wf(),
        ensures
            r == match self.tree.principal(node) {
                Some(id) => Some(self.scene().padding_quad(id).bounds()),
                None => None,
            },
    {
        match self.tree.box_for_node(node) {
            Some(id) => {
                let l: Layout = self.tree.box_(id).final_layout;
                let rect = Rect {
                    x: l.border.left as i64,
                    y: l.border.top as i64,
                    width: max_i64(
                        l.size.width as i64 - l.border.left as i64 - l.border.right as i64,
                        0,
                    ),
                    height: max_i64(
                        l.size.height as i64 - l.border.top as i64 - l.border.bottom as i64,
                        0,
                    ),
                };
                Some(self.box_quad_up(id, corners_of(rect)).bounding_rect())
            },
            None => None,
        }
    }
}

fn move_quad(q: Quad, dx: i128, dy: i128) -> (r: Quad)
    requires
        -0x1_0000_0000_0000_0000 <= dx <= 0x1_0000_0000_0000_0000,
        -0x1_0000_0000_0000_0000 <= dy <= 0x1_0000_0000_0000_0000,
    ensures
        r == q.moved(dx as int, dy as int),
{
    Quad {
        top_left: move_point(q.top_left, dx, dy),
        top_right: move_point(q.top_right, dx, dy),
        bottom_right: move_point(q.bottom_right, dx, dy),
        bottom_left: move_point(q.bottom_left, dx, dy),
    }
}

fn move_point(p: Point, dx: i128, dy: i128) -> (r: Point)
    requires
        -0x1_0000_0000_0000_0000 <= dx <= 0x1_0000_0000_0000_0000,
        -0x1_0000_0000_0000_0000 <= dy <= 0x1_0000_0000_0000_0000,
    ensures
        r == p.moved(dx as int, dy as int),
{
    Point { x: hold(p.x as i128 + dx), y: hold(p.y as i128 + dy) }
}

/// What is written as the scroll position of an element is what is read, and the positions
/// of other elements stay as they are.
pub proof fn scroll_positions_are_read_back(scene: Scene, node: NodeId, to: Point, id: BoxId)
    requires
        0 <= to.x <= scene.max_scroll(id).0,
        0 <= to.y <= scene.max_scroll(id).1,
    ensures
        ({
            let after = Scene {
                scrolls: Scrolls {
                    offsets: scene.scrolls.offsets.insert(node.key(), to),
                    ..scene.scrolls
                },
                ..scene
            };
            if scene.tree.at(id).dom_node == Some(node) {
                after.scrolled(id) == to
            } else {
                after.scrolled(id) == scene.scrolled(id)
            }
        }),
{
    match scene.tree.at(id).dom_node {
        Some(other) => {
            node_keys_are_distinct(other, node);
        },
        None => {},
    }
}

/// A scroll position is inside the range of its box, whatever was stored.
pub proof fn scroll_positions_are_in_range(scene: Scene, id: BoxId)
    ensures
        0 <= scene.scrolled(id).x <= scene.max_scroll(id).0,
        0 <= scene.scrolled(id).y <= scene.max_scroll(id).1,
{
    lemma_max_scroll(scene, id);
}

/// Scroll ranges are not negative and fit into a position.
proof fn lemma_max_scroll(scene: Scene, id: BoxId)
    ensures
        0 <= scene.max_scroll(id).0 <= i64::MAX,
        0 <= scene.max_scroll(id).1 <= i64::MAX,
{
}

/// Where the border box of a box is shown, with nothing around it transformed or shown in
/// columns: the sum of where it and the boxes around it are, less how far each of these and
/// the document are scrolled.
pub open spec fn place_shown(scene: Scene, c: int, chain: Seq<BoxId>) -> (int, int)
    decreases chain.len(),
{
    let at = scene.tree.boxes@[c].final_layout.location;
    if chain.len() == 0 {
        let v = scene.viewport_scrolled();
        (at.x - v.x, at.y - v.y)
    } else {
        let s = scene.scrolled(chain[0]);
        let rest = place_shown(scene, chain[0].0 as int, chain.skip(1));
        (at.x - s.x + rest.0, at.y - s.y + rest.1)
    }
}

/// None of the box and of the boxes around it is transformed or the content of a
/// multi-column container, and no position on the way is out of range.
pub open spec fn stands_plainly(scene: Scene, c: int, chain: Seq<BoxId>) -> bool
    decreases chain.len(),
{
    let b = scene.tree.boxes@[c];
    &&& b.transform is None
    &&& if chain.len() == 0 {
        b.parent is None && near(scene.viewport_scrolled())
    } else {
        &&& b.parent == Some(chain[0])
        &&& chain[0].0 < c
        &&& scene.tree.root_of_flow(chain[0]) is None
        &&& near(scene.scrolled(chain[0]))
        &&& stands_plainly(scene, chain[0].0 as int, chain.skip(1))
    }
}

/// The scroll position is one of a content that is not immeasurably large.
pub open spec fn near(p: Point) -> bool {
    p.x <= 0x1_0000_0000 && p.y <= 0x1_0000_0000
}

proof fn lemma_viewport_scroll(scene: Scene)
    ensures
        0 <= scene.viewport_scrolled().x,
        0 <= scene.viewport_scrolled().y,
{
}

proof fn lemma_shown(scene: Scene, c: int, chain: Seq<BoxId>, q: Quad, room: int)
    requires
        0 <= c < scene.tree.boxes@.len(),
        stands_plainly(scene, c, chain),
        0 <= room,
        room + chain.len() < 0x0100_0000,
        -0x2_0000_0000 * (room + 1) <= q.top_left.x <= 0x2_0000_0000 * (room + 1),
        -0x2_0000_0000 * (room + 1) <= q.top_left.y <= 0x2_0000_0000 * (room + 1),
        -0x2_0000_0000 * (room + 1) <= q.bottom_right.x <= 0x2_0000_0000 * (room + 1),
        -0x2_0000_0000 * (room + 1) <= q.bottom_right.y <= 0x2_0000_0000 * (room + 1),
        q.top_right == (Point { x: q.bottom_right.x, y: q.top_left.y }),
        q.bottom_left == (Point { x: q.top_left.x, y: q.bottom_right.y }),
    ensures
        ({
            let to = place_shown(scene, c, chain);
            let r = scene.box_up(c, q);
            &&& r.top_left.x == q.top_left.x + to.0
            &&& r.top_left.y == q.top_left.y + to.1
            &&& r.bottom_right.x == q.bottom_right.x + to.0
            &&& r.bottom_right.y == q.bottom_right.y + to.1
            &&& r.top_right == (Point { x: r.bottom_right.x, y: r.top_left.y })
            &&& r.bottom_left == (Point { x: r.top_left.x, y: r.bottom_right.y })
            &&& -0x2_0000_0000 * (chain.len() + 1) <= to.0 <= 0x2_0000_0000 * (chain.len() + 1)
            &&& -0x2_0000_0000 * (chain.len() + 1) <= to.1 <= 0x2_0000_0000 * (chain.len() + 1)
        }),
    decreases chain.len(),
{
    let b = scene.tree.boxes@[c];
    let at = b.final_layout.location;
    if chain.len() > 0 {
        let p = chain[0];
        scroll_positions_are_in_range(scene, p);
        let s = scene.scrolled(p);
        let inside = q.moved(at.x as int, at.y as int).moved(-s.x, -s.y);
        lemma_shown(scene, p.0 as int, chain.skip(1), inside, room + 1);
        assert(BoxId(p.0) == p);
    } else {
        lemma_viewport_scroll(scene);
    }
}

/// The border box of an element that nothing transforms and no columns show is where the
/// positions of its box and of all boxes around it add up to, less how far these and the
/// document are scrolled; and it has the size of its box.
pub proof fn border_boxes_are_shown_where_boxes_add_up(scene: Scene, c: BoxId, chain: Seq<BoxId>)
    requires
        scene.tree.has(c),
        stands_plainly(scene, c.0 as int, chain),
        chain.len() < 0x0080_0000,
        scene.tree.at(c).final_layout.size.width >= 0,
        scene.tree.at(c).final_layout.size.height >= 0,
    ensures
        ({
            let r = scene.border_quad(c).bounds();
            let to = place_shown(scene, c.0 as int, chain);
            let size = scene.tree.at(c).final_layout.size;
            &&& r.x == to.0
            &&& r.y == to.1
            &&& r.width == size.width
            &&& r.height == size.height
        }),
{
    let size = scene.tree.at(c).final_layout.size;
    let q = corners(Rect { x: 0, y: 0, width: size.width as i64, height: size.height as i64 });
    lemma_shown(scene, c.0 as int, chain, q, 0);
}

/// The document's scrolling area reaches as far as the border box of the root and as what
/// scrolling can reach in it.
pub proof fn the_document_reaches_past_the_root(scene: Scene, root: BoxId)
    requires
        scene.tree.root == Some(root),
        scene.tree.at(root).final_layout.size.width > 0,
        scene.tree.at(root).final_layout.size.height > 0,
        scene.tree.at(root).scrollable_overflow.in_range(),
    ensures
        ({
            let l = scene.tree.at(root).final_layout;
            let o = scene.tree.at(root).scrollable_overflow;
            let extent = scene.content_extent();
            &&& extent.0 >= l.location.x + l.size.width
            &&& extent.1 >= l.location.y + l.size.height
            &&& o.width > 0 && o.height > 0 && l.location.x + o.right() <= FAR ==> extent.0
                >= l.location.x + o.right()
            &&& o.width > 0 && o.height > 0 && l.location.y + o.bottom() <= FAR ==> extent.1
                >= l.location.y + o.bottom()
            &&& extent.0 == l.location.x + l.size.width || extent.0 == held(
                l.location.x + o.right(),
            )
            &&& extent.1 == l.location.y + l.size.height || extent.1 == held(
                l.location.y + o.bottom(),
            )
        }),
{
}

} // verus!
