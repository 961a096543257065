//! Revealing an element: scrolls every scroll container around it, the innermost first,
//! and then the document, so that the element ends up visible in all of them.

use vstd::prelude::*;

use crate::dom::DomTree;
use crate::element_boxes::ScrollParent;
use crate::engine::LayoutEngine;
use crate::geometry::{corners, corners_of, Quad, Scene};
use crate::scroll::{next_version, ScrollResult, Scrolls};
use crate::tree::{BoxId, LayoutBox, NodeId};
use crate::units::{clamped, held, hold, min, Offset, Point, Rect, FAR};

verus! {

/// Where an element is to come to lie in an axis.
#[derive(Clone, Copy, PartialEq, Eq, Debug, Structural)]
pub enum Align {
    Start,
    Center,
    End,
    /// As little scrolling as is needed, and none at all if the element is in full view.
    Nearest,
}

/// The scroll offset that brings something of the size `size`, now `start` past the near
/// edge of a view of the size `view` that is scrolled to `current`, to where `align` says.
pub open spec fn aligned(start: int, size: int, view: int, current: int, align: Align) -> int {
    match align {
        Align::Start => current + start,
        Align::Center => current + start - (view - size) / 2,
        Align::End => current + start - (view - size),
        Align::Nearest => if start < 0 {
            current + start
        } else if start + size > view {
            current + min(start + size - view, start)
        } else {
            current
        },
    }
}

/// The scroll offset that brings something of the size `size`, now `start` past the near edge
/// of a view of the size `view` that is scrolled to `current`, to where `align` says.
pub fn axis_offset(start: i64, size: i64, view: i64, current: i64, align: Align) -> (r: i64)
    ensures
        r == held(aligned(start as int, size as int, view as int, current as int, align)),
{
    let (s, z, v, c): (i128, i128, i128, i128) = (
        start as i128,
        size as i128,
        view as i128,
        current as i128,
    );
    match align {
        Align::Start => hold(c + s),
        Align::Center => hold(c + s - halved(v - z)),
        Align::End => hold(c + s - (v - z)),
        Align::Nearest => if s < 0 {
            hold(c + s)
        } else if s + z > v {
            let past: i128 = s + z - v;
            hold(
                c + if past <= s {
                    past
                } else {
                    s
                },
            )
        } else {
            current_held(current)
        },
    }
}

fn current_held(v: i64) -> (r: i64)
    ensures
        r == held(v as int),
{
    hold(v as i128)
}

/// Half of a number, rounded down.
fn halved(v: i128) -> (r: i128)
    requires
        -0x1_0000_0000_0000_0000 <= v <= 0x1_0000_0000_0000_0000,
    ensures
        r == v as int / 2,
        -0x1_0000_0000_0000_0000 <= r <= 0x1_0000_0000_0000_0000,
{
    if v >= 0 {
        v / 2
    } else {
        let r: i128 = v % 2;
        if r == 0 {
            v / 2
        } else {
            (v - r) / 2 - 1
        }
    }
}

/// What is in full view is not scrolled by [`Align::Nearest`].
pub proof fn what_is_in_view_stays(start: int, size: int, view: int, current: int)
    requires
        0 <= start,
        start + size <= view,
    ensures
        aligned(start, size, view, current, Align::Nearest) == current,
{
}

/// Revealing again what was just revealed does not scroll any further, whatever the
/// alignment.
pub proof fn revealing_settles(start: int, size: int, view: int, current: int, align: Align)
    ensures
        ({
            let first = aligned(start, size, view, current, align);
            let moved = start - (first - current);
            aligned(moved, size, view, first, align) == first
        }),
{
}

/// What [`axis_offset`] gives is what it gives again once the view is scrolled there, as long
/// as the offset is within the range of positions.
pub proof fn an_offset_is_kept(start: i64, size: i64, view: i64, current: i64, align: Align)
    requires
        -FAR <= aligned(start as int, size as int, view as int, current as int, align) <= FAR,
    ensures
        ({
            let r = held(
                aligned(start as int, size as int, view as int, current as int, align),
            );
            held(aligned(start - (r - current), size as int, view as int, r, align)) == r
        }),
{
    revealing_settles(start as int, size as int, view as int, current as int, align);
}

/// After [`Align::Nearest`], something that is larger than the view fills it from its own
/// near edge on: the near edge is never scrolled out of view for the sake of the far one.
pub proof fn what_is_too_large_shows_its_near_edge(start: int, size: int, view: int, current: int)
    requires
        size > view,
    ensures
        start - (aligned(start, size, view, current, Align::Nearest) - current) == 0,
{
}

/// After [`Align::Nearest`], something that fits into the view is in full view.
pub proof fn what_fits_comes_into_view(start: int, size: int, view: int, current: int)
    requires
        0 <= size <= view,
    ensures
        ({
            let moved = start - (aligned(start, size, view, current, Align::Nearest) - current);
            0 <= moved && moved + size <= view
        }),
{
}

/// Scroll positions, their versions, and the targets that have been scrolled; `None` is the
/// document.
#[verifier::ext_equal]
pub ghost struct Progress {
    pub scrolls: Scrolls,
    pub element_version: u64,
    pub document_version: u64,
    pub changed: Seq<Option<NodeId>>,
}

impl Scene {
    /// A point of the viewport in the space of the box `id`, if every transform around it
    /// can be undone.
    pub open spec fn into_box(self, id: int, p: Point) -> Option<Point>
        decreases id,
    {
        let b = self.tree.boxes@[id];
        match b.parent {
            Some(q) => if q.0 < id {
                match self.into_box(q.0 as int, p) {
                    Some(outer) => self.in_child(q.0 as int, BoxId(id as u32), outer),
                    None => None,
                }
            } else {
                None
            },
            None => {
                let v = self.viewport_scrolled();
                let at = b.final_layout.location;
                let outer = p.moved(v.x - at.x, v.y - at.y);
                match b.transform {
                    Some(t) => t.preimage(outer),
                    None => Some(outer),
                }
            },
        }
    }

    /// A rectangle of the viewport in the space of the box `id`: the rectangle around its
    /// corners there, or the rectangle itself where a transform cannot be undone.
    pub open spec fn rect_into_box(self, id: BoxId, r: Rect) -> Rect {
        let q = corners(r);
        match (
            self.into_box(id.0 as int, q.top_left),
            self.into_box(id.0 as int, q.top_right),
            self.into_box(id.0 as int, q.bottom_right),
            self.into_box(id.0 as int, q.bottom_left),
        ) {
            (Some(a), Some(b), Some(c), Some(d)) => (Quad {
                top_left: a,
                top_right: b,
                bottom_right: c,
                bottom_left: d,
            }).bounds(),
            _ => r,
        }
    }

    /// What is to be brought into view: the border box of `element`, or the part of it that
    /// `reveal` names relative to it.
    pub open spec fn target(self, element: NodeId, reveal: Option<Rect>) -> Option<Rect> {
        match self.tree.principal(element) {
            Some(id) => {
                let border = self.border_quad(id).bounds();
                Some(
                    match reveal {
                        None => border,
                        Some(sub) => Rect {
                            x: held(border.x + sub.x) as i64,
                            y: held(border.y + sub.y) as i64,
                            width: sub.width,
                            height: sub.height,
                        },
                    },
                )
            },
            None => None,
        }
    }

    /// Where the document is scrolled to.
    pub open spec fn document_goal(self, target: Rect, block: Align, inline: Align) -> Point {
        let at = self.viewport_scrolled();
        let most = self.max_viewport_scroll();
        Point {
            x: clamped(
                held(
                    aligned(
                        target.x as int,
                        target.width as int,
                        self.viewport.width as int,
                        at.x as int,
                        inline,
                    ),
                ),
                0,
                most.0,
            ) as i64,
            y: clamped(
                held(
                    aligned(
                        target.y as int,
                        target.height as int,
                        self.viewport.height as int,
                        at.y as int,
                        block,
                    ),
                ),
                0,
                most.1,
            ) as i64,
        }
    }

    /// Where the scroll container `id` is scrolled to. Offsets count in the container's own
    /// space, so that the target and the padding box are both taken there.
    pub open spec fn container_goal(self, id: BoxId, target: Rect, block: Align, inline: Align) -> Point {
        let view = self.rect_into_box(id, self.padding_quad(id).bounds());
        let rect = self.rect_into_box(id, target);
        let at = self.scrolled(id);
        let most = self.max_scroll(id);
        Point {
            x: clamped(
                held(
                    aligned(
                        held(rect.x - view.x),
                        rect.width as int,
                        view.width as int,
                        at.x as int,
                        inline,
                    ),
                ),
                0,
                most.0,
            ) as i64,
            y: clamped(
                held(
                    aligned(
                        held(rect.y - view.y),
                        rect.height as int,
                        view.height as int,
                        at.y as int,
                        block,
                    ),
                ),
                0,
                most.1,
            ) as i64,
        }
    }
}

/// The scene with other scroll positions.
pub open spec fn with_scrolls(scene: Scene, scrolls: Scrolls) -> Scene {
    Scene { scrolls, ..scene }
}

/// The document scrolled to its goal.
pub open spec fn document_step(
    scene: Scene,
    now: Progress,
    target: Rect,
    block: Align,
    inline: Align,
) -> Progress {
    let s = with_scrolls(scene, now.scrolls);
    let to = s.document_goal(target, block, inline);
    let changes = to != s.viewport_scrolled();
    Progress {
        scrolls: Scrolls { viewport: to, ..now.scrolls },
        element_version: now.element_version,
        document_version: if changes {
            next_version(now.document_version)
        } else {
            now.document_version
        },
        changed: if changes {
            now.changed.push(None)
        } else {
            now.changed
        },
    }
}

/// The scroll container of `node` scrolled to its goal.
pub open spec fn container_step(
    scene: Scene,
    now: Progress,
    node: NodeId,
    target: Rect,
    block: Align,
    inline: Align,
) -> Progress {
    let s = with_scrolls(scene, now.scrolls);
    match s.tree.principal(node) {
        Some(id) => {
            let to = s.container_goal(id, target, block, inline);
            let changes = to != s.scrolled(id);
            Progress {
                scrolls: Scrolls {
                    offsets: now.scrolls.offsets.insert(node.key(), to),
                    ..now.scrolls
                },
                element_version: if changes {
                    next_version(now.element_version)
                } else {
                    now.element_version
                },
                document_version: now.document_version,
                changed: if changes {
                    now.changed.push(Some(node))
                } else {
                    now.changed
                },
            }
        },
        None => now,
    }
}

/// Scrolls what scrolls `node`, and what scrolls that, and so on, until nothing does. Each
/// container lies further out than the one before: its box comes before `limit`.
pub open spec fn revealed(
    scene: Scene,
    dom: DomTree,
    now: Progress,
    element: NodeId,
    reveal: Option<Rect>,
    block: Align,
    inline: Align,
    node: NodeId,
    limit: int,
) -> Progress
    decreases limit,
{
    let s = with_scrolls(scene, now.scrolls);
    match s.tree.principal(node) {
        None => now,
        Some(b) => if b.0 >= limit {
            now
        } else {
            match s.scroller_of(dom, node) {
                ScrollParent::Unscrolled => now,
                ScrollParent::DocumentScrollingElement => match s.target(element, reveal) {
                    Some(rect) => document_step(scene, now, rect, block, inline),
                    None => now,
                },
                ScrollParent::Element(container) => {
                    let next = match s.target(element, reveal) {
                        Some(rect) => container_step(scene, now, container, rect, block, inline),
                        None => now,
                    };
                    revealed(
                        scene,
                        dom,
                        next,
                        element,
                        reveal,
                        block,
                        inline,
                        container,
                        b.0 as int,
                    )
                },
            }
        },
    }
}

impl LayoutEngine {
    fn point_into_box(&self, id: BoxId, p: Point) -> (r: Option<Point>)
        requires
            self.wf(),
            self.tree.has(id),
        ensures
            r == self.scene().into_box(id.0 as int, p),
        decreases id.0,
    {
        assert(self.tree.links_ok(id.0 as int));
        let b: &LayoutBox = self.tree.box_(id);
        match b.parent {
            Some(q) => match self.point_into_box(q, p) {
                Some(outer) => self.point_in_child(q, id, outer),
                None => None,
            },
            None => {
                let v: Point = self.viewport_scroll();
                let at: Offset = b.final_layout.location;
                let outer = Point {
                    x: hold(p.x as i128 + (v.x as i128 - at.x as i128)),
                    y: hold(p.y as i128 + (v.y as i128 - at.y as i128)),
                };
                match b.transform {
                    Some(t) => t.invert(outer),
                    None => Some(outer),
                }
            },
        }
    }

    /// A rectangle of the viewport in the space that the offsets of a scroll container
    /// count in: under a transform the two differ.
    fn unmap_into_scroll_space(&self, id: BoxId, rect: Rect) -> (r: Rect)
        requires
            self.wf(),
            self.tree.has(id),
        ensures
            r == self.scene().rect_into_box(id, rect),
    {
        let q: Quad = corners_of(rect);
        match (
            self.point_into_box(id, q.top_left),
            self.point_into_box(id, q.top_right),
            self.point_into_box(id, q.bottom_right),
            self.point_into_box(id, q.bottom_left),
        ) {
            (Some(a), Some(b), Some(c), Some(d)) => (Quad {
                top_left: a,
                top_right: b,
                bottom_right: c,
                bottom_left: d,
            }).bounding_rect(),
            _ => rect,
        }
    }

    fn reveal_rect(&self, element: NodeId, reveal: Option<Rect>) -> (r: Option<Rect>)
        requires
            self.wf(),
        ensures
            r == self.scene().target(element, reveal),
    {
        match self.border_box(element) {
            Some(border) => Some(
                match reveal {
                    None => border,
                    Some(sub) => Rect {
                        x: hold(border.x as i128 + sub.x as i128),
                        y: hold(border.y as i128 + sub.y as i128),
                        width: sub.width,
                        height: sub.height,
                    },
                },
            ),
            None => None,
        }
    }

    fn scroll_document_to(&mut self, rect: Rect, block: Align, inline: Align) -> (r: ScrollResult)
        requires
            old(self).wf(),
        ensures
            final(self).wf(),
            *final(self) == (LayoutEngine { scroll: final(self).scroll, ..*old(self) }),
            ({
                let to = old(self).scene().document_goal(rect, block, inline);
                &&& r.changed == (to != old(self).scene().viewport_scrolled())
                &&& final(self).scroll@ == (Scrolls { viewport: to, ..old(self).scroll@ })
                &&& final(self).scroll.document_version == if r.changed {
                    next_version(old(self).scroll.document_version)
                } else {
                    old(self).scroll.document_version
                }
                &&& final(self).scroll.element_version == old(self).scroll.element_version
            }),
    {
        let at: Point = self.viewport_scroll();
        let y: i64 = axis_offset(rect.y, rect.height, self.viewport.height as i64, at.y, block);
        let x: i64 = axis_offset(rect.x, rect.width, self.viewport.width as i64, at.x, inline);
        self.set_viewport_scroll(x, y)
    }

    fn scroll_container_to(
        &mut self,
        container: NodeId,
        id: BoxId,
        rect: Rect,
        block: Align,
        inline: Align,
    ) -> (r: ScrollResult)
        requires
            old(self).wf(),
            old(self).tree.principal(container) == Some(id),
            old(self).tree.has(id),
        ensures
            final(self).wf(),
            *final(self) == (LayoutEngine { scroll: final(self).scroll, ..*old(self) }),
            ({
                let to = old(self).scene().container_goal(id, rect, block, inline);
                &&& r.changed == (to != old(self).scene().scrolled(id))
                &&& final(self).scroll@ == (Scrolls {
                    offsets: old(self).scroll@.offsets.insert(container.key(), to),
                    ..old(self).scroll@
                })
                &&& final(self).scroll.element_version == if r.changed {
                    next_version(old(self).scroll.element_version)
                } else {
                    old(self).scroll.element_version
                }
                &&& final(self).scroll.document_version == old(self).scroll.document_version
            }),
    {
        let at: Point = self.box_scroll_offset(id);
        let shown: Rect = match self.padding_box(container) {
            Some(r) => r,
            None => rect,
        };
        let view: Rect = self.unmap_into_scroll_space(id, shown);
        let own: Rect = self.unmap_into_scroll_space(id, rect);
        let left: i64 = hold(own.x as i128 - view.x as i128);
        let top: i64 = hold(own.y as i128 - view.y as i128);
        let y: i64 = axis_offset(top, own.height, view.height, at.y, block);
        let x: i64 = axis_offset(left, own.width, view.width, at.x, inline);
        self.set_scroll_offset(container, x, y)
    }

    fn reveal_from(
        &mut self,
        dom: &DomTree,
        element: NodeId,
        reveal: Option<Rect>,
        block: Align,
        inline: Align,
        node: NodeId,
        limit: usize,
        changed: &mut Vec<Option<NodeId>>,
    )
        requires
            old(self).wf(),
            dom.wf(),
        ensures
            final(self).wf(),
            *final(self) == (LayoutEngine { scroll: final(self).scroll, ..*old(self) }),
            (Progress {
                scrolls: final(self).scroll@,
                element_version: final(self).scroll.element_version,
                document_version: final(self).scroll.document_version,
                changed: final(changed)@,
            }) == revealed(
                old(self).scene(),
                *dom,
                (Progress {
                    scrolls: old(self).scroll@,
                    element_version: old(self).scroll.element_version,
                    document_version: old(self).scroll.document_version,
                    changed: old(changed)@,
                }),
                element,
                reveal,
                block,
                inline,
                node,
                limit as int,
            ),
        decreases limit,
    {
        let ghost start = self.scene();
        assert(with_scrolls(start, self.scroll@) =~= start);
        let b: BoxId = match self.tree.box_for_node(node) {
            Some(b) => b,
            None => {
                return;
            },
        };
        if b.0 as usize >= limit {
            return;
        }
        match self.scroll_parent(dom, node) {
            ScrollParent::Unscrolled => {},
            ScrollParent::DocumentScrollingElement => {
                if let Some(rect) = self.reveal_rect(element, reveal) {
                    if self.scroll_document_to(rect, block, inline).changed {
                        changed.push(None);
                    }
                }
            },
            ScrollParent::Element(container) => {
                if let Some(rect) = self.reveal_rect(element, reveal) {
                    if let Some(id) = self.tree.box_for_node(container) {
                        if self.scroll_container_to(container, id, rect, block, inline).changed {
                            changed.push(Some(container));
                        }
                    }
                }
                proof {
                    lemma_revealed_ignores_scrolls(
                        start,
                        self.scene(),
                        *dom,
                        Progress {
                            scrolls: self.scroll@,
                            element_version: self.scroll.element_version,
                            document_version: self.scroll.document_version,
                            changed: changed@,
                        },
                        element,
                        reveal,
                        block,
                        inline,
                        container,
                        b.0 as int,
                    );
                }
                self.reveal_from(
                    dom,
                    element,
                    reveal,
                    block,
                    inline,
                    container,
                    b.0 as usize,
                    changed,
                );
            },
        }
    }
}

/// What is revealed depends on the scroll positions that have been reached, not on those
/// that the scene came with.
proof fn lemma_revealed_ignores_scrolls(
    a: Scene,
    b: Scene,
    dom: DomTree,
    now: Progress,
    element: NodeId,
    reveal: Option<Rect>,
    block: Align,
    inline: Align,
    node: NodeId,
    limit: int,
)
    requires
        a.tree == b.tree,
        a.viewport == b.viewport,
    ensures
        revealed(a, dom, now, element, reveal, block, inline, node, limit) == revealed(
            b,
            dom,
            now,
            element,
            reveal,
            block,
            inline,
            node,
            limit,
        ),
    decreases limit,
{
    let s = with_scrolls(a, now.scrolls);
    assert(s =~= with_scrolls(b, now.scrolls));
    match s.tree.principal(node) {
        None => {},
        Some(x) => {
            if x.0 < limit {
                match s.scroller_of(dom, node) {
                    ScrollParent::Element(container) => {
                        let next = match s.target(element, reveal) {
                            Some(rect) => container_step(a, now, container, rect, block, inline),
                            None => now,
                        };
                        lemma_revealed_ignores_scrolls(
                            a,
                            b,
                            dom,
                            next,
                            element,
                            reveal,
                            block,
                            inline,
                            container,
                            x.0 as int,
                        );
                    },
                    _ => {},
                }
            }
        },
    }
}

/// Scrolls every scroll container around `element`, the innermost first, and then the
/// document, so that the element, or the part of it that `reveal` names, comes into view in
/// each. Every step goes by where the steps before have brought the element. Gives the
/// targets that were scrolled, in order; `None` is the document.
pub fn scroll_into_view(
    layout: &mut LayoutEngine,
    dom: &DomTree,
    element: NodeId,
    reveal: Option<Rect>,
    block: Align,
    inline: Align,
) -> (r: Vec<Option<NodeId>>)
    requires
        old(layout).wf(),
        dom.wf(),
    ensures
        final(layout).wf(),
        *final(layout) == (LayoutEngine { scroll: final(layout).scroll, ..*old(layout) }),
        (Progress {
            scrolls: final(layout).scroll@,
            element_version: final(layout).scroll.element_version,
            document_version: final(layout).scroll.document_version,
            changed: r@,
        }) == revealed(
            old(layout).scene(),
            *dom,
            (Progress {
                scrolls: old(layout).scroll@,
                element_version: old(layout).scroll.element_version,
                document_version: old(layout).scroll.document_version,
                changed: Seq::empty(),
            }),
            element,
            reveal,
            block,
            inline,
            element,
            old(layout).tree.boxes@.len() as int,
        ),
{
    let mut changed: Vec<Option<NodeId>> = Vec::new();
    let limit: usize = layout.tree.boxes.len();
    assert(changed@ =~= Seq::<Option<NodeId>>::empty());
    layout.reveal_from(dom, element, reveal, block, inline, element, limit, &mut changed);
    changed
}

/// Scrolled to its start, something lies at the near edge of the view; to its end, at the far
/// edge; to its centre, with as much room before it as after it, but for an odd unit.
pub proof fn aligned_things_lie_at_their_edge(start: int, size: int, view: int, current: int)
    ensures
        start - (aligned(start, size, view, current, Align::Start) - current) == 0,
        start + size - (aligned(start, size, view, current, Align::End) - current) == view,
        ({
            let before = start - (aligned(start, size, view, current, Align::Center) - current);
            let after = view - before - size;
            0 <= after - before <= 1
        }),
{
}

/// The document is scrolled so that the target lies where it is wanted, as far as there is
/// anything to scroll to.
pub proof fn the_document_is_scrolled_to_the_target(scene: Scene, target: Rect)
    requires
        -FAR <= scene.viewport_scrolled().x + target.x <= FAR,
        -FAR <= scene.viewport_scrolled().y + target.y <= FAR,
        0 <= scene.max_viewport_scroll().0 <= FAR,
        0 <= scene.max_viewport_scroll().1 <= FAR,
    ensures
        ({
            let to = scene.document_goal(target, Align::Start, Align::Start);
            let most = scene.max_viewport_scroll();
            let x = scene.viewport_scrolled().x + target.x;
            let y = scene.viewport_scrolled().y + target.y;
            &&& 0 <= to.x <= most.0
            &&& 0 <= to.y <= most.1
            &&& 0 <= x <= most.0 ==> to.x == x
            &&& 0 <= y <= most.1 ==> to.y == y
            &&& x > most.0 ==> to.x == most.0
            &&& y > most.1 ==> to.y == most.1
            &&& x < 0 ==> to.x == 0
            &&& y < 0 ==> to.y == 0
        }),
{
}

} // verus!
