//! The rectangles that an element is shown in: its border box, or, for an inline element
//! without one, a rectangle on each line that holds a part of it.

use vstd::prelude::*;

use crate::dom::{DomTree, NodeKind};
use crate::engine::LayoutEngine;
use crate::geometry::{corners, corners_of, Quad, Scene};
use crate::tree::{BoxId, Layout, LayoutBox, LayoutTree, LineBox, LineItem, NodeId};
use crate::units::Rect;

verus! {

/// The rectangle of an item of a line, relative to the content box of its formatting
/// context. A run is as tall as its line's ascent and descent.
pub open spec fn item_rect(line: LineBox, item: LineItem) -> Rect {
    match item {
        LineItem::Run { offset, advance, brush } => Rect {
            x: offset as i64,
            y: (line.baseline - line.ascent) as i64,
            width: advance as i64,
            height: (line.ascent + line.descent) as i64,
        },
        LineItem::Atomic { id, x, y, width, height } => Rect {
            x: x as i64,
            y: y as i64,
            width: width as i64,
            height: height as i64,
        },
    }
}

fn item_rect_of(line: &LineBox, item: &LineItem) -> (r: Rect)
    ensures
        r == item_rect(*line, *item),
        r.in_range(),
{
    match *item {
        LineItem::Run { offset, advance, brush: _ } => Rect {
            x: offset as i64,
            y: line.baseline as i64 - line.ascent as i64,
            width: advance as i64,
            height: line.ascent as i64 + line.descent as i64,
        },
        LineItem::Atomic { id: _, x, y, width, height } => Rect {
            x: x as i64,
            y: y as i64,
            width: width as i64,
            height: height as i64,
        },
    }
}

/// The node that an item of a line belongs to.
pub open spec fn item_owner(tree: LayoutTree, item: LineItem) -> Option<NodeId> {
    match item {
        LineItem::Run { offset, advance, brush } => crate::tree::TextBrush::unpacked(
            brush.packed as int,
        ),
        LineItem::Atomic { id, x, y, width, height } => if tree.has(id) {
            tree.at(id).dom_node
        } else {
            None
        },
    }
}

fn item_owner_of(tree: &LayoutTree, item: &LineItem) -> (r: Option<NodeId>)
    ensures
        r == item_owner(*tree, *item),
{
    match *item {
        LineItem::Run { offset: _, advance: _, brush } => brush.node(),
        LineItem::Atomic { id, x: _, y: _, width: _, height: _ } => if (id.0 as usize)
            < tree.boxes.len() {
            tree.box_(id).dom_node
        } else {
            None
        },
    }
}

/// The node is the one at `i` or inside it.
pub open spec fn is_inside(dom: DomTree, owner: Option<NodeId>, i: int) -> bool {
    match owner {
        Some(node) => match dom.position(node) {
            Some(c) => dom.is_inclusive_ancestor(i, c as int),
            None => false,
        },
        None => false,
    }
}

fn lies_inside(dom: &DomTree, owner: Option<NodeId>, i: usize) -> (r: bool)
    requires
        dom.wf(),
        i < dom.nodes@.len(),
    ensures
        r == is_inside(*dom, owner, i as int),
{
    match owner {
        Some(node) => match dom.find(node) {
            Some(c) => dom.contains(i, c),
            None => false,
        },
        None => false,
    }
}

/// The rectangle around those of the first `n` items of a line that lie in the node at `i`.
pub open spec fn line_rect(tree: LayoutTree, dom: DomTree, line: LineBox, i: int, n: int) -> Option<Rect>
    decreases n,
{
    if n <= 0 {
        None
    } else {
        let before = line_rect(tree, dom, line, i, n - 1);
        let item = line.items@[n - 1];
        if is_inside(dom, item_owner(tree, item), i) {
            match before {
                Some(acc) => Some(acc.joined(item_rect(line, item))),
                None => Some(item_rect(line, item)),
            }
        } else {
            before
        }
    }
}

fn line_rect_of(tree: &LayoutTree, dom: &DomTree, line: &LineBox, i: usize) -> (r: Option<Rect>)
    requires
        dom.wf(),
        i < dom.nodes@.len(),
    ensures
        r == line_rect(*tree, *dom, *line, i as int, line.items@.len() as int),
        match r {
            Some(rect) => rect.in_range(),
            None => true,
        },
{
    let mut found: Option<Rect> = None;
    let mut k: usize = 0;
    while k < line.items.len()
        invariant
            k <= line.items@.len(),
            dom.wf(),
            i < dom.nodes@.len(),
            found == line_rect(*tree, *dom, *line, i as int, k as int),
            match found {
                Some(rect) => rect.in_range(),
                None => true,
            },
        decreases line.items.len() - k,
    {
        let item: LineItem = line.items[k];
        if lies_inside(dom, item_owner_of(tree, &item), i) {
            let rect: Rect = item_rect_of(line, &item);
            found = match found {
                Some(acc) => Some(acc.union(rect)),
                None => Some(rect),
            };
        }
        k = k + 1;
    }
    found
}

/// The box's formatting context holds a part of `node`.
pub open spec fn contributes(b: LayoutBox, node: NodeId) -> bool {
    match b.ifc {
        Some(ifc) => ifc.contributors@.contains(node),
        None => false,
    }
}

fn is_contributor(b: &LayoutBox, node: NodeId) -> (r: bool)
    ensures
        r == contributes(*b, node),
{
    match &b.ifc {
        Some(ifc) => {
            let mut i: usize = 0;
            while i < ifc.contributors.len()
                invariant
                    i <= ifc.contributors@.len(),
                    b.ifc == Some(*ifc),
                    forall|k: int| 0 <= k < i ==> #[trigger] ifc.contributors@[k] != node,
                decreases ifc.contributors.len() - i,
            {
                if ifc.contributors[i] == node {
                    assert(ifc.contributors@[i as int] == node);
                    return true;
                }
                i = i + 1;
            }
            assert(!ifc.contributors@.contains(node));
            false
        },
        None => false,
    }
}

/// The first anonymous box inside `id`, from its `k`th child on, whose formatting context
/// holds a part of `node`. Only anonymous boxes are looked into.
pub open spec fn anonymous_ifc_from(tree: LayoutTree, id: int, node: NodeId, k: int) -> Option<BoxId>
    decreases tree.boxes@.len() - id, tree.boxes@[id].children@.len() - k,
{
    let kids = tree.boxes@[id].children@;
    if 0 <= k < kids.len() {
        let child = kids[k].0 as int;
        if child <= id || child >= tree.boxes@.len() || tree.boxes@[child].dom_node is Some {
            anonymous_ifc_from(tree, id, node, k + 1)
        } else if contributes(tree.boxes@[child], node) {
            Some(kids[k])
        } else {
            match anonymous_ifc_from(tree, child, node, 0) {
                Some(found) => Some(found),
                None => anonymous_ifc_from(tree, id, node, k + 1),
            }
        }
    } else {
        None
    }
}

/// What the search for an anonymous formatting context finds holds a part of the node and
/// belongs to no node of its own.
pub proof fn anonymous_ifc_holds_the_node(tree: LayoutTree, id: int, node: NodeId, k: int)
    requires
        tree.wf(),
        0 <= id < tree.boxes@.len(),
    ensures
        match anonymous_ifc_from(tree, id, node, k) {
            Some(found) => id < found.0 < tree.boxes@.len() && contributes(tree.at(found), node)
                && tree.at(found).dom_node is None,
            None => true,
        },
    decreases tree.boxes@.len() - id, tree.boxes@[id].children@.len() - k,
{
    let kids = tree.boxes@[id].children@;
    if 0 <= k < kids.len() {
        assert(tree.links_ok(id));
        let child = kids[k].0 as int;
        anonymous_ifc_holds_the_node(tree, id, node, k + 1);
        anonymous_ifc_holds_the_node(tree, child, node, 0);
    }
}

impl Scene {
    /// The box of the nearest ancestor of the node at `i` that has one.
    pub open spec fn boxed_ancestor(self, dom: DomTree, i: int) -> Option<BoxId>
        decreases i,
    {
        match dom.nodes@[i].parent {
            Some(p) => if p >= i {
                None
            } else {
                match self.tree.principal(dom.nodes@[p as int].id) {
                    Some(b) => Some(b),
                    None => self.boxed_ancestor(dom, p as int),
                }
            },
            None => None,
        }
    }

    /// The box whose formatting context holds the inline element at `i`: the nearest
    /// ancestor's, or an anonymous one inside that.
    pub open spec fn inline_context(self, dom: DomTree, i: int) -> Option<BoxId> {
        let node = dom.nodes@[i].id;
        match self.boxed_ancestor(dom, i) {
            Some(b) => if self.tree.at(b).ifc is Some {
                if contributes(self.tree.at(b), node) {
                    Some(b)
                } else {
                    None
                }
            } else {
                anonymous_ifc_from(self.tree, b.0 as int, node, 0)
            },
            None => None,
        }
    }

    /// The corners, in viewport coordinates, of the parts of the node at `i` on the first
    /// `n` lines of the formatting context of `id`: those of one rectangle for each line
    /// that holds any.
    pub open spec fn line_quads(self, dom: DomTree, id: BoxId, i: int, n: int) -> Seq<Quad>
        decreases n,
    {
        if n <= 0 {
            Seq::empty()
        } else {
            let l = self.tree.at(id).final_layout;
            let line = self.tree.at(id).ifc.unwrap().lines@[n - 1];
            let rest = self.line_quads(dom, id, i, n - 1);
            match line_rect(self.tree, dom, line, i, line.items@.len() as int) {
                Some(rect) => rest.push(
                    self.content_up(
                        id.0 as int,
                        corners(
                            rect.moved(
                                l.border.left + l.padding.left,
                                l.border.top + l.padding.top,
                            ),
                        ),
                    ),
                ),
                None => rest,
            }
        }
    }

    /// The corners of the parts of the inline element at `i`, line by line.
    pub open spec fn fragment_quads(self, dom: DomTree, i: int) -> Seq<Quad> {
        if !(dom.nodes@[i].kind is Element) {
            Seq::empty()
        } else {
            match self.inline_context(dom, i) {
                Some(id) => self.line_quads(
                    dom,
                    id,
                    i,
                    self.tree.at(id).ifc.unwrap().lines@.len() as int,
                ),
                None => Seq::empty(),
            }
        }
    }

    /// The corners of what `node` is shown as: its border box, or its parts line by line.
    pub open spec fn quads(self, dom: DomTree, node: NodeId) -> Seq<Quad> {
        match self.tree.principal(node) {
            Some(id) => seq![self.border_quad(id)],
            None => match dom.position(node) {
                Some(i) => self.fragment_quads(dom, i as int),
                None => Seq::empty(),
            },
        }
    }
}

/// The rectangle around the first `n` of some rectangles; there is at least one.
pub open spec fn union_of(rects: Seq<Rect>, n: int) -> Rect
    decreases n,
{
    if n <= 1 {
        rects[0]
    } else {
        union_of(rects, n - 1).joined(rects[n - 1])
    }
}

impl LayoutEngine {
    fn boxed_ancestor(&self, dom: &DomTree, i: usize) -> (r: Option<BoxId>)
        requires
            self.wf(),
            dom.wf(),
            i < dom.nodes@.len(),
        ensures
            r == self.scene().boxed_ancestor(*dom, i as int),
            match r {
                Some(b) => self.tree.has(b),
                None => true,
            },
        decreases i,
    {
        assert(dom.node_ok(i as int));
        match dom.nodes[i].parent {
            Some(p) => match self.tree.box_for_node(dom.nodes[p].id) {
                Some(b) => Some(b),
                None => self.boxed_ancestor(dom, p),
            },
            None => None,
        }
    }

    /// The anonymous box inside `id` whose formatting context holds a part of `node`. A
    /// box with a node of its own is not looked into: if its context held the node, it
    /// would be a nearer ancestor.
    fn anonymous_ifc_of(&self, id: BoxId, node: NodeId) -> (r: Option<BoxId>)
        requires
            self.wf(),
            self.tree.has(id),
        ensures
            r == anonymous_ifc_from(self.tree, id.0 as int, node, 0),
        decreases self.tree.boxes@.len() - id.0,
    {
        let b: &LayoutBox = self.tree.box_(id);
        assert(self.tree.links_ok(id.0 as int));
        let mut k: usize = 0;
        while k < b.children.len()
            invariant
                k <= b.children@.len(),
                self.wf(),
                self.tree.has(id),
                *b == self.tree.at(id),
                self.tree.links_ok(id.0 as int),
                anonymous_ifc_from(self.tree, id.0 as int, node, 0) == anonymous_ifc_from(
                    self.tree,
                    id.0 as int,
                    node,
                    k as int,
                ),
            decreases b.children.len() - k,
        {
            let child: BoxId = b.children[k];
            assert(id.0 < b.children@[k as int].0 < self.tree.boxes@.len());
            let c: &LayoutBox = self.tree.box_(child);
            if c.dom_node.is_none() {
                if is_contributor(c, node) {
                    return Some(child);
                }
                if let Some(found) = self.anonymous_ifc_of(child, node) {
                    return Some(found);
                }
            }
            k = k + 1;
        }
        None
    }

    fn line_quads(&self, dom: &DomTree, id: BoxId, i: usize) -> (r: Vec<Quad>)
        requires
            self.wf(),
            dom.wf(),
            i < dom.nodes@.len(),
            self.tree.has(id),
            self.tree.at(id).ifc is Some,
        ensures
            r@ == self.scene().line_quads(
                *dom,
                id,
                i as int,
                self.tree.at(id).ifc.unwrap().lines@.len() as int,
            ),
    {
        let mut out: Vec<Quad> = Vec::new();
        let b: &LayoutBox = self.tree.box_(id);
        let l: Layout = b.final_layout;
        let dx: i64 = l.border.left as i64 + l.padding.left as i64;
        let dy: i64 = l.border.top as i64 + l.padding.top as i64;
        if let Some(ifc) = &b.ifc {
            let mut k: usize = 0;
            while k < ifc.lines.len()
                invariant
                    k <= ifc.lines@.len(),
                    self.wf(),
                    dom.wf(),
                    i < dom.nodes@.len(),
                    self.tree.has(id),
                    self.tree.at(id).ifc == Some(*ifc),
                    l == self.tree.at(id).final_layout,
                    dx == l.border.left + l.padding.left,
                    dy == l.border.top + l.padding.top,
                    out@ == self.scene().line_quads(*dom, id, i as int, k as int),
                decreases ifc.lines.len() - k,
            {
                if let Some(rect) = line_rect_of(&self.tree, dom, &ifc.lines[k], i) {
                    out.push(self.content_quad_up(id, corners_of(rect.translate(dx, dy))));
                }
                k = k + 1;
            }
        }
        out
    }

    /// The corners of the parts of an inline element, line by line. An element that spans
    /// a column break has parts in both columns.
    fn inline_fragment_quads(&self, dom: &DomTree, i: usize) -> (r: Vec<Quad>)
        requires
            self.wf(),
            dom.wf(),
            i < dom.nodes@.len(),
        ensures
            r@ == self.scene().fragment_quads(*dom, i as int),
    {
        if dom.nodes[i].kind != NodeKind::Element {
            return Vec::new();
        }
        let node: NodeId = dom.nodes[i].id;
        let ancestor: BoxId = match self.boxed_ancestor(dom, i) {
            Some(b) => b,
            None => {
                return Vec::new();
            },
        };
        if self.tree.box_(ancestor).ifc.is_some() {
            if !is_contributor(self.tree.box_(ancestor), node) {
                return Vec::new();
            }
            self.line_quads(dom, ancestor, i)
        } else {
            proof {
                anonymous_ifc_holds_the_node(self.tree, ancestor.0 as int, node, 0);
            }
            match self.anonymous_ifc_of(ancestor, node) {
                Some(id) => self.line_quads(dom, id, i),
                None => Vec::new(),
            }
        }
    }

    /// The corners of what `node` is shown as, in viewport coordinates: those of its border
    /// box, or of its parts line by line if it is an inline element.
    pub fn content_quads(&self, dom: &DomTree, node: NodeId) -> (r: Vec<Quad>)
        requires
            self.wf(),
            dom.wf(),
        ensures
            r@ == self.scene().quads(*dom, node),
    {
        if let Some(id) = self.tree.box_for_node(node) {
            let mut out: Vec<Quad> = Vec::new();
            out.push(self.border_quad(id));
            assert(out@ =~= seq![self.scene().border_quad(id)]);
            return out;
        }
        match dom.find(node) {
            Some(i) => self.inline_fragment_quads(dom, i),
            None => Vec::new(),
        }
    }

    /// The rectangles that `node` is shown in, in viewport coordinates.
    pub fn client_rects(&self, dom: &DomTree, node: NodeId) -> (r: Vec<Rect>)
        requires
            self.wf(),
            dom.wf(),
        ensures
            r@ == self.scene().quads(*dom, node).map_values(|q: Quad| q.bounds()),
            forall|k: int| 0 <= k < r@.len() ==> (#[trigger] r@[k]).in_range(),
    {
        let quads: Vec<Quad> = self.content_quads(dom, node);
        let mut out: Vec<Rect> = Vec::new();
        let mut k: usize = 0;
        while k < quads.len()
            invariant
                k <= quads@.len(),
                out@.len() == k,
                forall|j: int|
                    0 <= j < k ==> #[trigger] out@[j] == quads@[j].bounds() && out@[j].in_range(),
            decreases quads.len() - k,
        {
            out.push(quads[k].bounding_rect());
            k = k + 1;
        }
        assert(out@ =~= quads@.map_values(|q: Quad| q.bounds()));
        out
    }

    /// The rectangle around everything that `node` is shown in, or `None` if it generates
    /// no boxes.
    pub fn bounding_client_rect(&self, dom: &DomTree, node: NodeId) -> (r: Option<Rect>)
        requires
            self.wf(),
            dom.wf(),
        ensures
            ({
                let rects = self.scene().quads(*dom, node).map_values(|q: Quad| q.bounds());
                r == if rects.len() == 0 {
                    None
                } else {
                    Some(union_of(rects, rects.len() as int))
                }
            }),
    {
        let rects: Vec<Rect> = self.client_rects(dom, node);
        if rects.len() == 0 {
            return None;
        }
        let mut acc: Rect = rects[0];
        let mut k: usize = 1;
        while k < rects.len()
            invariant
                1 <= k <= rects@.len(),
                acc == union_of(rects@, k as int),
                acc.in_range(),
                forall|j: int| 0 <= j < rects@.len() ==> (#[trigger] rects@[j]).in_range(),
            decreases rects.len() - k,
        {
            acc = acc.union(rects[k]);
            k = k + 1;
        }
        Some(acc)
    }
}

/// An element with a box is shown in exactly one rectangle: its border box.
pub proof fn a_boxed_element_has_one_rectangle(scene: Scene, dom: DomTree, node: NodeId, id: BoxId)
    requires
        scene.tree.principal(node) == Some(id),
    ensures
        ({
            let rects = scene.quads(dom, node).map_values(|q: Quad| q.bounds());
            &&& rects.len() == 1
            &&& union_of(rects, 1) == scene.border_quad(id).bounds()
        }),
{
}

/// What an inline element is shown in on a line covers every item of the line that belongs
/// to it: a run over its advance, from the line's ascent above the baseline to its descent
/// below, and a box over its own rectangle.
pub proof fn fragments_cover_their_items(
    tree: LayoutTree,
    dom: DomTree,
    line: LineBox,
    i: int,
    n: int,
    k: int,
)
    requires
        0 <= k < n <= line.items@.len(),
        is_inside(dom, item_owner(tree, line.items@[k]), i),
        match line.items@[k] {
            LineItem::Run { offset, advance, brush } => advance > 0 && line.ascent + line.descent
                > 0,
            LineItem::Atomic { id, x, y, width, height } => width > 0 && height > 0,
        },
    ensures
        match line_rect(tree, dom, line, i, n) {
            Some(r) => {
                &&& r.in_range()
                &&& !r.empty()
                &&& match line.items@[k] {
                    LineItem::Run { offset, advance, brush } => {
                        &&& r.x <= offset
                        &&& offset + advance <= r.right()
                        &&& r.y <= line.baseline - line.ascent
                        &&& line.baseline + line.descent <= r.bottom()
                    },
                    LineItem::Atomic { id, x, y, width, height } => {
                        &&& r.x <= x
                        &&& x + width <= r.right()
                        &&& r.y <= y
                        &&& y + height <= r.bottom()
                    },
                }
            },
            None => false,
        },
    decreases n,
{
    lemma_line_rect_in_range(tree, dom, line, i, n);
    lemma_line_rect_in_range(tree, dom, line, i, n - 1);
    if k < n - 1 {
        fragments_cover_their_items(tree, dom, line, i, n - 1, k);
    }
}

proof fn lemma_line_rect_in_range(tree: LayoutTree, dom: DomTree, line: LineBox, i: int, n: int)
    requires
        n <= line.items@.len(),
    ensures
        match line_rect(tree, dom, line, i, n) {
            Some(r) => r.in_range(),
            None => true,
        },
    decreases n,
{
    if n > 0 {
        lemma_line_rect_in_range(tree, dom, line, i, n - 1);
    }
}

/// An element is shown on a line exactly where an item of the line belongs to it.
pub proof fn fragments_are_on_the_lines_of_their_items(
    tree: LayoutTree,
    dom: DomTree,
    line: LineBox,
    i: int,
    n: int,
)
    requires
        0 <= n <= line.items@.len(),
    ensures
        line_rect(tree, dom, line, i, n) is Some <==> exists|k: int|
            0 <= k < n && is_inside(dom, #[trigger] item_owner(tree, line.items@[k]), i),
    decreases n,
{
    if n > 0 {
        fragments_are_on_the_lines_of_their_items(tree, dom, line, i, n - 1);
        assert(item_owner(tree, line.items@[n - 1]) == item_owner(tree, line.items@[n - 1]));
        if line_rect(tree, dom, line, i, n) is Some {
            if is_inside(dom, item_owner(tree, line.items@[n - 1]), i) {
                assert(0 <= n - 1 < n);
            } else {
                let k = choose|k: int|
                    0 <= k < n - 1 && is_inside(dom, #[trigger] item_owner(tree, line.items@[k]), i);
                assert(is_inside(dom, item_owner(tree, line.items@[k]), i));
            }
        }
    }
}

} // verus!
