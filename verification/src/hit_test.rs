//! Hit testing: which elements a point of the viewport falls on, the topmost first.
//!
//! The test walks down the tree with the point in each box's own space: scroll offsets
//! and locations are added, transforms are undone, and a multi-column container leads into
//! the column that the point falls in. A box whose transform flattens it cannot be hit.

use vstd::prelude::*;

use crate::dom::{DomTree, NodeKind};
use crate::engine::LayoutEngine;
use crate::geometry::{scroll_positions_are_in_range, Scene};
use crate::multicol::{in_column, is_first_column, unmap_content_point};
use crate::tree::{
    BoxId, ColumnRange, CssPosition, IfcData, Layout, LayoutBox, LayoutTree, LineBox, LineItem,
    MulticolContext, NodeId, Overflow, PseudoBox, TextBrush,
};
use crate::units::{held, hold, Offset, Point};

verus! {

/// How high a box is painted among its siblings: positioned boxes above those in the flow,
/// but below them with a negative `z-index`.
pub open spec fn rank(b: LayoutBox) -> (int, int) {
    (
        if b.position is Static {
            1
        } else if b.z_index >= 0 {
            2
        } else {
            0
        },
        b.z_index as int,
    )
}

/// The first rank is higher than the second.
pub open spec fn outranks(a: (int, int), b: (int, int)) -> bool {
    a.0 > b.0 || (a.0 == b.0 && a.1 > b.1)
}

/// The rank of the `k`th child of the box `id`.
pub open spec fn child_rank(tree: LayoutTree, id: int, k: int) -> (int, int) {
    rank(tree.at(tree.boxes@[id].children@[k]))
}

/// Where the `k`th child goes in a stack, from the place `j` on: below all that outrank it.
pub open spec fn place_in(tree: LayoutTree, id: int, stack: Seq<usize>, k: int, j: int) -> int
    decreases stack.len() - j,
{
    if j < stack.len() && outranks(
        child_rank(tree, id, stack[j] as int),
        child_rank(tree, id, k),
    ) {
        place_in(tree, id, stack, k, j + 1)
    } else {
        j
    }
}

/// The first `n` children of the box `id`, by their number, in the order in which they are
/// painted, the topmost first.
pub open spec fn stack_of(tree: LayoutTree, id: int, n: int) -> Seq<usize>
    decreases n,
{
    if n <= 0 {
        Seq::empty()
    } else {
        let below = stack_of(tree, id, n - 1);
        below.insert(place_in(tree, id, below, n - 1, 0), (n - 1) as usize)
    }
}

proof fn lemma_place_in(tree: LayoutTree, id: int, stack: Seq<usize>, k: int, j: int)
    requires
        0 <= j <= stack.len(),
    ensures
        j <= place_in(tree, id, stack, k, j) <= stack.len(),
        forall|i: int|
            j <= i < place_in(tree, id, stack, k, j) ==> outranks(
                child_rank(tree, id, #[trigger] stack[i] as int),
                child_rank(tree, id, k),
            ),
        place_in(tree, id, stack, k, j) < stack.len() ==> !outranks(
            child_rank(tree, id, stack[place_in(tree, id, stack, k, j)] as int),
            child_rank(tree, id, k),
        ),
    decreases stack.len() - j,
{
    if j < stack.len() && outranks(
        child_rank(tree, id, stack[j] as int),
        child_rank(tree, id, k),
    ) {
        lemma_place_in(tree, id, stack, k, j + 1);
    }
}

proof fn lemma_stack_len(tree: LayoutTree, id: int, n: int)
    requires
        0 <= n <= usize::MAX,
    ensures
        stack_of(tree, id, n).len() == n,
        forall|i: int| 0 <= i < n ==> 0 <= #[trigger] stack_of(tree, id, n)[i] < n,
    decreases n,
{
    if n > 0 {
        lemma_stack_len(tree, id, n - 1);
        let below = stack_of(tree, id, n - 1);
        lemma_place_in(tree, id, below, n - 1, 0);
        let p = place_in(tree, id, below, n - 1, 0);
        assert forall|i: int| 0 <= i < n implies 0 <= #[trigger] stack_of(tree, id, n)[i] < n by {
            if i < p {
                assert(stack_of(tree, id, n)[i] == below[i]);
            } else if i > p {
                assert(stack_of(tree, id, n)[i] == below[i - 1]);
            }
        }
    }
}

/// The child `a` is painted above the child `b`: it outranks it, or comes after it with the
/// same rank.
pub open spec fn painted_above(tree: LayoutTree, id: int, a: int, b: int) -> bool {
    outranks(child_rank(tree, id, a), child_rank(tree, id, b)) || (child_rank(tree, id, a)
        == child_rank(tree, id, b) && a > b)
}

/// In a stack every child is painted above those that follow.
pub proof fn stacks_follow_paint_order(tree: LayoutTree, id: int, n: int)
    requires
        0 <= n <= usize::MAX,
    ensures
        forall|i: int, j: int|
            0 <= i < j < n ==> painted_above(
                tree,
                id,
                #[trigger] stack_of(tree, id, n)[i] as int,
                #[trigger] stack_of(tree, id, n)[j] as int,
            ),
    decreases n,
{
    if n > 0 {
        stacks_follow_paint_order(tree, id, n - 1);
        lemma_stack_len(tree, id, n - 1);
        let below = stack_of(tree, id, n - 1);
        lemma_place_in(tree, id, below, n - 1, 0);
        let p = place_in(tree, id, below, n - 1, 0);
        let stack = stack_of(tree, id, n);
        assert forall|i: int, j: int| 0 <= i < j < n implies painted_above(
            tree,
            id,
            #[trigger] stack[i] as int,
            #[trigger] stack[j] as int,
        ) by {
            if j < p {
                assert(stack[i] == below[i] && stack[j] == below[j]);
            } else if j == p {
                assert(stack[i] == below[i] && stack[j] == n - 1);
            } else if i < p {
                assert(stack[i] == below[i] && stack[j] == below[j - 1]);
            } else if i == p {
                assert(stack[i] == n - 1 && stack[j] == below[j - 1]);
                if p < j - 1 {
                    assert(painted_above(tree, id, below[p] as int, below[j - 1] as int));
                }
            } else {
                assert(stack[i] == below[i - 1] && stack[j] == below[j - 1]);
            }
        }
    }
}

fn rank_of(b: &LayoutBox) -> (r: (i32, i32))
    ensures
        (r.0 as int, r.1 as int) == rank(*b),
{
    (
        if b.position == CssPosition::Static {
            1
        } else if b.z_index >= 0 {
            2
        } else {
            0
        },
        b.z_index,
    )
}

fn stack_children(tree: &LayoutTree, id: BoxId) -> (r: Vec<usize>)
    requires
        tree.wf(),
        tree.has(id),
    ensures
        r@ == stack_of(*tree, id.0 as int, tree.at(id).children@.len() as int),
{
    assert(tree.links_ok(id.0 as int));
    let b: &LayoutBox = tree.box_(id);
    let mut stack: Vec<usize> = Vec::new();
    let n: usize = b.children.len();
    let mut k: usize = 0;
    while k < n
        invariant
            k <= n == b.children@.len(),
            tree.wf(),
            tree.has(id),
            *b == tree.at(id),
            tree.links_ok(id.0 as int),
            stack@ == stack_of(*tree, id.0 as int, k as int),
        decreases n - k,
    {
        proof {
            lemma_stack_len(*tree, id.0 as int, k as int);
        }
        let mine: (i32, i32) = rank_of(tree.box_(b.children[k]));
        let mut j: usize = 0;
        let mut going: bool = true;
        while going && j < stack.len()
            invariant
                j <= stack@.len(),
                k < n == b.children@.len(),
                tree.wf(),
                tree.has(id),
                *b == tree.at(id),
                tree.links_ok(id.0 as int),
                (mine.0 as int, mine.1 as int) == child_rank(*tree, id.0 as int, k as int),
                forall|i: int| 0 <= i < stack@.len() ==> 0 <= #[trigger] stack@[i] < k,
                place_in(*tree, id.0 as int, stack@, k as int, 0) == place_in(
                    *tree,
                    id.0 as int,
                    stack@,
                    k as int,
                    j as int,
                ),
                !going ==> j < stack@.len() && !outranks(
                    child_rank(*tree, id.0 as int, stack@[j as int] as int),
                    child_rank(*tree, id.0 as int, k as int),
                ),
            decreases
                    stack.len() - j,
                    if going {
                        1int
                    } else {
                        0int
                    },
        {
            let other: (i32, i32) = rank_of(tree.box_(b.children[stack[j]]));
            if other.0 > mine.0 || (other.0 == mine.0 && other.1 > mine.1) {
                j = j + 1;
            } else {
                going = false;
            }
        }
        assert(j == place_in(*tree, id.0 as int, stack@, k as int, 0));
        stack.insert(j, k);
        k = k + 1;
    }
    stack
}

/// The column that a point of a multi-column container's content box falls in, from the
/// `k`th on.
pub open spec fn column_at(columns: Seq<ColumnRange>, width: int, x: i64, y: i64, k: int) -> Option<int>
    decreases columns.len() - k,
{
    if 0 <= k < columns.len() {
        if in_column(columns[k], width, x, y) {
            Some(k)
        } else {
            column_at(columns, width, x, y, k + 1)
        }
    } else {
        None
    }
}

proof fn lemma_column_at(columns: Seq<ColumnRange>, width: int, x: i64, y: i64, k: int)
    requires
        0 <= k <= columns.len(),
        forall|j: int| 0 <= j < k ==> !in_column(#[trigger] columns[j], width, x, y),
    ensures
        match column_at(columns, width, x, y, k) {
            Some(c) => is_first_column(columns, width, x, y, c),
            None => forall|j: int|
                0 <= j < columns.len() ==> !in_column(#[trigger] columns[j], width, x, y),
        },
    decreases columns.len() - k,
{
    if k < columns.len() && !in_column(columns[k], width, x, y) {
        lemma_column_at(columns, width, x, y, k + 1);
    }
}

/// The position of the flow that a multi-column container shows at a point of its content
/// box, if any.
pub open spec fn flow_position(mc: MulticolContext, x: i64, y: i64) -> Option<Point> {
    match column_at(mc.columns@, mc.used_width as int, x, y, 0) {
        Some(k) => Some(
            Point {
                x: held(x - mc.columns@[k].x) as i64,
                y: held(y + mc.columns@[k].start) as i64,
            },
        ),
        None => None,
    }
}

fn flow_position_of(mc: &MulticolContext, x: i64, y: i64) -> (r: Option<Point>)
    ensures
        r == flow_position(*mc, x, y),
{
    proof {
        lemma_column_at(mc.columns@, mc.used_width as int, x, y, 0);
    }
    match unmap_content_point(mc, x, y) {
        Some(p) => {
            proof {
                let k = choose|k: int| #[trigger]
                    is_first_column(mc.columns@, mc.used_width as int, x, y, k) && p.0 == held(
                        x - mc.columns@[k].x,
                    ) && p.1 == held(y + mc.columns@[k].start);
                let c = column_at(mc.columns@, mc.used_width as int, x, y, 0);
                assert(in_column(mc.columns@[k], mc.used_width as int, x, y));
                assert(c is Some);
                if k < c.unwrap() {
                    assert(!in_column(mc.columns@[k], mc.used_width as int, x, y));
                } else if c.unwrap() < k {
                    assert(!in_column(mc.columns@[c.unwrap()], mc.used_width as int, x, y));
                }
            }
            Some(Point { x: p.0, y: p.1 })
        },
        None => None,
    }
}

/// The point is in the border box of a box, in whose space it is given.
pub open spec fn in_border_box(l: Layout, p: Point) -> bool {
    0 <= p.x < l.size.width && 0 <= p.y < l.size.height
}

/// The point is in the padding box of a box.
pub open spec fn in_padding_box(l: Layout, p: Point) -> bool {
    l.border.left <= p.x < l.size.width - l.border.right && l.border.top <= p.y < l.size.height
        - l.border.bottom
}

/// The content of a box is open to a point: the box does not clip, or clips outside it.
pub open spec fn content_open(b: LayoutBox, p: Point) -> bool {
    (b.style.overflow_x is Visible && b.style.overflow_y is Visible) || in_padding_box(
        b.final_layout,
        p,
    )
}

fn is_content_open(b: &LayoutBox, p: Point) -> (r: bool)
    ensures
        r == content_open(*b, p),
{
    let l: Layout = b.final_layout;
    (b.style.overflow_x == Overflow::Visible && b.style.overflow_y == Overflow::Visible) || (
    l.border.left as i64 <= p.x && p.x < l.size.width as i64 - l.border.right as i64
        && l.border.top as i64 <= p.y && p.y < l.size.height as i64 - l.border.bottom as i64)
}

/// The run is at the horizontal position `x`.
pub open spec fn run_covers(offset: int, advance: int, x: int) -> bool {
    offset <= x < offset + advance
}

/// The node of the first run of a line, from the `k`th item on, that is at `x` and belongs
/// to a node other than `element`.
pub open spec fn run_at(items: Seq<LineItem>, x: int, element: Option<NodeId>, k: int) -> Option<NodeId>
    decreases items.len() - k,
{
    if 0 <= k < items.len() {
        match items[k] {
            LineItem::Run { offset, advance, brush } => {
                let owner = TextBrush::unpacked(brush.packed as int);
                if run_covers(offset as int, advance as int, x) && owner is Some && owner
                    != element {
                    owner
                } else {
                    run_at(items, x, element, k + 1)
                }
            },
            LineItem::Atomic { id, x: _, y, width, height } => run_at(items, x, element, k + 1),
        }
    } else {
        None
    }
}

fn find_run(items: &Vec<LineItem>, x: i64, element: Option<NodeId>) -> (r: Option<NodeId>)
    ensures
        r == run_at(items@, x as int, element, 0),
{
    let mut k: usize = 0;
    while k < items.len()
        invariant
            k <= items@.len(),
            run_at(items@, x as int, element, 0) == run_at(items@, x as int, element, k as int),
        decreases items.len() - k,
    {
        if let LineItem::Run { offset, advance, brush } = items[k] {
            if offset as i64 <= x && x < offset as i64 + advance as i64 {
                if let Some(owner) = brush.node() {
                    let own: bool = match element {
                        Some(e) => e == owner,
                        None => false,
                    };
                    if !own {
                        return Some(owner);
                    }
                }
            }
        }
        k = k + 1;
    }
    None
}

/// The line is at the vertical position `y`.
pub open spec fn line_covers(line: LineBox, y: int) -> bool {
    line.baseline - line.ascent <= y < line.baseline + line.descent
}

/// The node other than `element` whose text is at `p` on one of the lines from the `k`th on.
pub open spec fn text_at(lines: Seq<LineBox>, p: Point, element: Option<NodeId>, k: int) -> Option<NodeId>
    decreases lines.len() - k,
{
    if 0 <= k < lines.len() {
        let found = if line_covers(lines[k], p.y as int) {
            run_at(lines[k].items@, p.x as int, element, 0)
        } else {
            None
        };
        match found {
            Some(node) => Some(node),
            None => text_at(lines, p, element, k + 1),
        }
    } else {
        None
    }
}

fn find_text(ifc: &IfcData, p: Point, element: Option<NodeId>) -> (r: Option<NodeId>)
    ensures
        r == text_at(ifc.lines@, p, element, 0),
{
    let mut k: usize = 0;
    while k < ifc.lines.len()
        invariant
            k <= ifc.lines@.len(),
            text_at(ifc.lines@, p, element, 0) == text_at(ifc.lines@, p, element, k as int),
        decreases ifc.lines.len() - k,
    {
        let line: &LineBox = &ifc.lines[k];
        if line.baseline as i64 - line.ascent as i64 <= p.y && p.y < line.baseline as i64
            + line.descent as i64 {
            if let Some(node) = find_run(&line.items, p.x, element) {
                return Some(node);
            }
        }
        k = k + 1;
    }
    None
}

/// The elements around the node at `i`, the innermost first, up to and without `stop`.
pub open spec fn elements_around(dom: DomTree, i: int, stop: Option<NodeId>) -> Seq<NodeId>
    decreases i,
{
    match dom.nodes@[i].parent {
        Some(p) => if p >= i || Some(dom.nodes@[p as int].id) == stop {
            Seq::empty()
        } else if dom.nodes@[p as int].kind is Element {
            seq![dom.nodes@[p as int].id] + elements_around(dom, p as int, stop)
        } else {
            elements_around(dom, p as int, stop)
        },
        None => Seq::empty(),
    }
}

/// The node that owns text and the elements around it, up to and without `stop`.
pub open spec fn text_chain(dom: DomTree, node: NodeId, stop: Option<NodeId>) -> Seq<NodeId> {
    match dom.position(node) {
        Some(i) => seq![node] + elements_around(dom, i as int, stop),
        None => seq![node],
    }
}

fn push_elements_around(dom: &DomTree, i: usize, stop: Option<NodeId>, out: &mut Vec<NodeId>)
    requires
        dom.wf(),
        i < dom.nodes@.len(),
    ensures
        final(out)@ == old(out)@ + elements_around(*dom, i as int, stop),
    decreases i,
{
    assert(dom.node_ok(i as int));
    if let Some(p) = dom.nodes[i].parent {
        let stops: bool = match stop {
            Some(s) => dom.nodes[p].id == s,
            None => false,
        };
        if !stops {
            if dom.nodes[p].kind == NodeKind::Element {
                out.push(dom.nodes[p].id);
            }
            push_elements_around(dom, p, stop, out);
            assert(out@ =~= old(out)@ + elements_around(*dom, i as int, stop));
        }
    }
}

/// The element with the given id is one of the document's.
pub open spec fn is_element(dom: DomTree, node: NodeId) -> bool {
    match dom.position(node) {
        Some(i) => dom.nodes@[i as int].kind is Element,
        None => false,
    }
}

impl Scene {
    /// The element whose content the box `id` is part of: its own, or that of the nearest
    /// box around it that has one.
    pub open spec fn element_of(self, id: int) -> Option<NodeId>
        decreases id,
    {
        let b = self.tree.boxes@[id];
        match b.dom_node {
            Some(node) => Some(node),
            None => match b.parent {
                Some(p) => if p.0 < id {
                    self.element_of(p.0 as int)
                } else {
                    None
                },
                None => None,
            },
        }
    }

    /// The point in the space of the `k`th child of the box `id`, if its transform can be
    /// undone.
    pub open spec fn in_child(self, id: int, child: BoxId, p: Point) -> Option<Point> {
        let s = self.scrolled(BoxId(id as u32));
        let c = self.tree.at(child);
        let at = c.final_layout.location;
        let q = p.moved(s.x - at.x, s.y - at.y);
        match c.transform {
            Some(t) => t.preimage(q),
            None => Some(q),
        }
    }

    /// The hits so far and those in the content of the box `id`, whose space the point is
    /// in.
    pub open spec fn content_hits(self, dom: DomTree, id: int, p: Point, out: Seq<NodeId>) -> Seq<
        NodeId,
    >
        decreases
                self.tree.boxes@.len() - id,
                stack_of(self.tree, id, self.tree.boxes@[id].children@.len() as int).len() + 1,
    {
        let b = self.tree.boxes@[id];
        if !content_open(b, p) {
            out
        } else {
            match b.multicol {
                Some(mc) => {
                    let at = self.tree.at(mc.flow).final_layout.location;
                    let local = p.moved(-at.x, -at.y);
                    match flow_position(mc, local.x, local.y) {
                        Some(q) => if id < mc.flow.0 < self.tree.boxes@.len() {
                            self.hits(dom, mc.flow.0 as int, q, out)
                        } else {
                            out
                        },
                        None => out,
                    }
                },
                None => self.child_hits(dom, id, p, out, 0),
            }
        }
    }

    /// The hits so far and those in the children of the box `id`, from the `k`th of its
    /// stack on.
    pub open spec fn child_hits(self, dom: DomTree, id: int, p: Point, out: Seq<NodeId>, k: int) -> Seq<
        NodeId,
    >
        decreases
                self.tree.boxes@.len() - id,
                stack_of(self.tree, id, self.tree.boxes@[id].children@.len() as int).len() - k,
    {
        let kids = self.tree.boxes@[id].children@;
        let stack = stack_of(self.tree, id, kids.len() as int);
        if 0 <= k < stack.len() {
            let child = kids[stack[k] as int];
            let next = match self.in_child(id, child, p) {
                Some(q) => if id < child.0 < self.tree.boxes@.len() {
                    self.hits(dom, child.0 as int, q, out)
                } else {
                    out
                },
                None => out,
            };
            self.child_hits(dom, id, p, next, k + 1)
        } else {
            out
        }
    }

    /// The hits so far, then those of the box `id`: what its content adds; the text at the
    /// point, if nothing was hit yet; and the box's own element.
    pub open spec fn hits(self, dom: DomTree, id: int, p: Point, out: Seq<NodeId>) -> Seq<NodeId>
        decreases
                self.tree.boxes@.len() - id,
                stack_of(self.tree, id, self.tree.boxes@[id].children@.len() as int).len() + 2,
    {
        let b = self.tree.boxes@[id];
        let inside = self.content_hits(dom, id, p, out);
        if !in_border_box(b.final_layout, p) {
            inside
        } else {
            self.with_own_hit(dom, id, self.with_text_hit(dom, id, p, inside))
        }
    }

    /// The hits so far, and the text at the point if there are none: a span and the
    /// elements around it inside the one that the formatting context belongs to.
    pub open spec fn with_text_hit(self, dom: DomTree, id: int, p: Point, out: Seq<NodeId>) -> Seq<
        NodeId,
    > {
        let b = self.tree.boxes@[id];
        match b.ifc {
            Some(ifc) => if out.len() == 0 {
                let l = b.final_layout;
                let q = p.moved(
                    -(l.border.left + l.padding.left),
                    -(l.border.top + l.padding.top),
                );
                let element = self.element_of(id);
                match text_at(ifc.lines@, q, element, 0) {
                    Some(node) => text_chain(dom, node, element),
                    None => out,
                }
            } else {
                out
            },
            None => out,
        }
    }

    /// The hits so far and the box's own element, unless it was just reported, the box is
    /// generated content, or pointers pass through it. A list marker reports its item, for
    /// it lies outside of it.
    pub open spec fn with_own_hit(self, dom: DomTree, id: int, out: Seq<NodeId>) -> Seq<NodeId> {
        let b = self.tree.boxes@[id];
        match b.dom_node {
            Some(node) => if (b.pseudo is None || b.pseudo == Some(PseudoBox::Marker))
                && !b.pointer_events_none && is_element(dom, node) && !(out.len() > 0
                && out.last() == node) {
                out.push(node)
            } else {
                out
            },
            None => out,
        }
    }

    /// The elements at a point of the viewport, the topmost first; the document element
    /// comes last in any case.
    pub open spec fn elements_at(self, dom: DomTree, x: int, y: int) -> Seq<NodeId> {
        match self.tree.root {
            Some(root) => if x < 0 || y < 0 || x >= self.viewport.width || y
                >= self.viewport.height {
                Seq::empty()
            } else {
                let b = self.tree.at(root);
                let v = self.viewport_scrolled();
                let at = b.final_layout.location;
                let p = Point { x: x as i64, y: y as i64 }.moved(v.x - at.x, v.y - at.y);
                let inner = match b.transform {
                    Some(t) => t.preimage(p),
                    None => Some(p),
                };
                let found = match inner {
                    Some(q) => self.hits(dom, root.0 as int, q, Seq::empty()),
                    None => Seq::empty(),
                };
                match b.dom_node {
                    Some(node) => if found.len() > 0 && found.last() == node {
                        found
                    } else {
                        found.push(node)
                    },
                    None => found,
                }
            },
            None => Seq::empty(),
        }
    }
}

impl LayoutEngine {
    /// The element whose content the box `id` is part of.
    fn containing_element(&self, id: BoxId) -> (r: Option<NodeId>)
        requires
            self.wf(),
            self.tree.has(id),
        ensures
            r == self.scene().element_of(id.0 as int),
        decreases id.0,
    {
        assert(self.tree.links_ok(id.0 as int));
        let b: &LayoutBox = self.tree.box_(id);
        match b.dom_node {
            Some(node) => Some(node),
            None => match b.parent {
                Some(p) => self.containing_element(p),
                None => None,
            },
        }
    }

    pub(crate) fn point_in_child(&self, id: BoxId, child: BoxId, p: Point) -> (r: Option<Point>)
        requires
            self.wf(),
            self.tree.has(id),
            self.tree.has(child),
        ensures
            r == self.scene().in_child(id.0 as int, child, p),
    {
        let s: Point = self.box_scroll_offset(id);
        let c: &LayoutBox = self.tree.box_(child);
        let at: Offset = c.final_layout.location;
        let q = Point {
            x: hold(p.x as i128 + (s.x as i128 - at.x as i128)),
            y: hold(p.y as i128 + (s.y as i128 - at.y as i128)),
        };
        match c.transform {
            Some(t) => t.invert(q),
            None => Some(q),
        }
    }

    fn content_hits(&self, dom: &DomTree, id: BoxId, p: Point, out: &mut Vec<NodeId>)
        requires
            self.wf(),
            dom.wf(),
            self.tree.has(id),
        ensures
            final(out)@ == self.scene().content_hits(*dom, id.0 as int, p, old(out)@),
        decreases self.tree.boxes@.len() - id.0, 0int,
    {
        assert(self.tree.links_ok(id.0 as int));
        let b: &LayoutBox = self.tree.box_(id);
        if !is_content_open(b, p) {
            return;
        }
        if let Some(mc) = &b.multicol {
            let at: Offset = self.tree.box_(mc.flow).final_layout.location;
            let local = Point {
                x: hold(p.x as i128 - at.x as i128),
                y: hold(p.y as i128 - at.y as i128),
            };
            if let Some(q) = flow_position_of(mc, local.x, local.y) {
                self.hit_box(dom, mc.flow, q, out);
            }
            return;
        }
        let stack: Vec<usize> = stack_children(&self.tree, id);
        let ghost start = out@;
        let n: usize = b.children.len();
        proof {
            lemma_stack_len(self.tree, id.0 as int, n as int);
        }
        let mut k: usize = 0;
        while k < stack.len()
            invariant
                k <= stack@.len(),
                self.wf(),
                dom.wf(),
                self.tree.has(id),
                *b == self.tree.at(id),
                self.tree.links_ok(id.0 as int),
                stack@ == stack_of(self.tree, id.0 as int, b.children@.len() as int),
                forall|i: int| 0 <= i < stack@.len() ==> 0 <= #[trigger] stack@[i] < b.children@.len(),
                self.scene().child_hits(*dom, id.0 as int, p, start, 0) == self.scene().child_hits(
                    *dom,
                    id.0 as int,
                    p,
                    out@,
                    k as int,
                ),
            decreases stack.len() - k,
        {
            let child: BoxId = b.children[stack[k]];
            assert(id.0 < b.children@[stack@[k as int] as int].0 < self.tree.boxes@.len());
            if let Some(q) = self.point_in_child(id, child, p) {
                self.hit_box(dom, child, q, out);
            }
            k = k + 1;
        }
    }

    /// Hit test of a box and its content. `p` is in the box's own space.
    fn hit_box(&self, dom: &DomTree, id: BoxId, p: Point, out: &mut Vec<NodeId>)
        requires
            self.wf(),
            dom.wf(),
            self.tree.has(id),
        ensures
            final(out)@ == self.scene().hits(*dom, id.0 as int, p, old(out)@),
        decreases self.tree.boxes@.len() - id.0, 1int,
    {
        self.content_hits(dom, id, p, out);
        let b: &LayoutBox = self.tree.box_(id);
        let l: Layout = b.final_layout;
        if !(0 <= p.x && p.x < l.size.width as i64 && 0 <= p.y && p.y < l.size.height as i64) {
            return;
        }
        let ghost inside = out@;
        if out.len() == 0 {
            if let Some(ifc) = &b.ifc {
                let element: Option<NodeId> = self.containing_element(id);
                let q = Point {
                    x: hold(p.x as i128 - (l.border.left as i128 + l.padding.left as i128)),
                    y: hold(p.y as i128 - (l.border.top as i128 + l.padding.top as i128)),
                };
                if let Some(node) = find_text(ifc, q, element) {
                    out.push(node);
                    if let Some(i) = dom.find(node) {
                        push_elements_around(dom, i, element, out);
                    }
                    assert(out@ =~= text_chain(*dom, node, element));
                }
            }
        }
        assert(out@ =~= self.scene().with_text_hit(*dom, id.0 as int, p, inside));
        if let Some(node) = b.dom_node {
            let reports: bool = match b.pseudo {
                None => true,
                Some(pseudo) => pseudo == PseudoBox::Marker,
            };
            let is_el: bool = match dom.find(node) {
                Some(i) => dom.nodes[i].kind == NodeKind::Element,
                None => false,
            };
            let known: bool = out.len() > 0 && out[out.len() - 1] == node;
            if reports && !b.pointer_events_none && is_el && !known {
                out.push(node);
            }
        }
    }

    /// The elements at a point of the viewport, the topmost first, ending with the document
    /// element. Boxes that pointers pass through are left out.
    pub fn elements_from_point(&self, dom: &DomTree, x: i64, y: i64) -> (r: Vec<NodeId>)
        requires
            self.wf(),
            dom.wf(),
        ensures
            r@ == self.scene().elements_at(*dom, x as int, y as int),
    {
        let mut out: Vec<NodeId> = Vec::new();
        if x < 0 || y < 0 || x >= self.viewport.width as i64 || y >= self.viewport.height as i64 {
            return out;
        }
        let root: BoxId = match self.tree.root {
            Some(root) => root,
            None => {
                return out;
            },
        };
        let b: &LayoutBox = self.tree.box_(root);
        let v: Point = self.viewport_scroll();
        let at: Offset = b.final_layout.location;
        let p = Point {
            x: hold(x as i128 + (v.x as i128 - at.x as i128)),
            y: hold(y as i128 + (v.y as i128 - at.y as i128)),
        };
        let inner: Option<Point> = match b.transform {
            Some(t) => t.invert(p),
            None => Some(p),
        };
        assert(out@ =~= Seq::<NodeId>::empty());
        if let Some(q) = inner {
            self.hit_box(dom, root, q, &mut out);
        }
        if let Some(node) = b.dom_node {
            if !(out.len() > 0 && out[out.len() - 1] == node) {
                out.push(node);
            }
        }
        out
    }

    /// The topmost element at a point of the viewport.
    pub fn element_from_point(&self, dom: &DomTree, x: i64, y: i64) -> (r: Option<NodeId>)
        requires
            self.wf(),
            dom.wf(),
        ensures
            r == ({
                let all = self.scene().elements_at(*dom, x as int, y as int);
                if all.len() > 0 {
                    Some(all[0])
                } else {
                    None
                }
            }),
    {
        let all: Vec<NodeId> = self.elements_from_point(dom, x, y);
        if all.len() > 0 {
            Some(all[0])
        } else {
            None
        }
    }
}

/// Hits are only added: what was hit before stays first.
pub proof fn hits_are_only_added(scene: Scene, dom: DomTree, id: int, p: Point, out: Seq<NodeId>)
    requires
        out.len() > 0,
    ensures
        scene.hits(dom, id, p, out).len() >= out.len(),
        scene.hits(dom, id, p, out).take(out.len() as int) == out,
    decreases
            scene.tree.boxes@.len() - id,
            stack_of(scene.tree, id, scene.tree.boxes@[id].children@.len() as int).len() + 2,
{
    lemma_content_hits_added(scene, dom, id, p, out);
    let inside = scene.content_hits(dom, id, p, out);
    assert(scene.with_own_hit(dom, id, inside).take(out.len() as int) =~= inside.take(
        out.len() as int,
    ));
}

proof fn lemma_content_hits_added(scene: Scene, dom: DomTree, id: int, p: Point, out: Seq<NodeId>)
    requires
        out.len() > 0,
    ensures
        scene.content_hits(dom, id, p, out).len() >= out.len(),
        scene.content_hits(dom, id, p, out).take(out.len() as int) == out,
    decreases
            scene.tree.boxes@.len() - id,
            stack_of(scene.tree, id, scene.tree.boxes@[id].children@.len() as int).len() + 1,
{
    let b = scene.tree.boxes@[id];
    assert(out.take(out.len() as int) =~= out);
    if content_open(b, p) {
        match b.multicol {
            Some(mc) => {
                let at = scene.tree.at(mc.flow).final_layout.location;
                let local = p.moved(-at.x, -at.y);
                match flow_position(mc, local.x, local.y) {
                    Some(q) => {
                        if id < mc.flow.0 < scene.tree.boxes@.len() {
                            hits_are_only_added(scene, dom, mc.flow.0 as int, q, out);
                        }
                    },
                    None => {},
                }
            },
            None => {
                lemma_child_hits_added(scene, dom, id, p, out, 0);
            },
        }
    }
}

proof fn lemma_child_hits_added(
    scene: Scene,
    dom: DomTree,
    id: int,
    p: Point,
    out: Seq<NodeId>,
    k: int,
)
    requires
        out.len() > 0,
    ensures
        scene.child_hits(dom, id, p, out, k).len() >= out.len(),
        scene.child_hits(dom, id, p, out, k).take(out.len() as int) == out,
    decreases
            scene.tree.boxes@.len() - id,
            stack_of(scene.tree, id, scene.tree.boxes@[id].children@.len() as int).len() - k,
{
    let kids = scene.tree.boxes@[id].children@;
    let stack = stack_of(scene.tree, id, kids.len() as int);
    assert(out.take(out.len() as int) =~= out);
    if 0 <= k < stack.len() {
        let child = kids[stack[k] as int];
        let next = match scene.in_child(id, child, p) {
            Some(q) => if id < child.0 < scene.tree.boxes@.len() {
                scene.hits(dom, child.0 as int, q, out)
            } else {
                out
            },
            None => out,
        };
        match scene.in_child(id, child, p) {
            Some(q) => {
                if id < child.0 < scene.tree.boxes@.len() {
                    hits_are_only_added(scene, dom, child.0 as int, q, out);
                }
            },
            None => {},
        }
        lemma_child_hits_added(scene, dom, id, p, next, k + 1);
        let all = scene.child_hits(dom, id, p, next, k + 1);
        assert(all.take(out.len() as int) =~= all.take(next.len() as int).take(out.len() as int));
    }
}

/// Every child stands in the stack of its parent, and stands there once.
pub proof fn every_child_is_stacked_once(tree: LayoutTree, id: int, n: int)
    requires
        0 <= n <= usize::MAX,
    ensures
        stack_of(tree, id, n).len() == n,
        stack_of(tree, id, n).no_duplicates(),
        forall|k: usize| 0 <= k < n <==> #[trigger] stack_of(tree, id, n).contains(k),
    decreases n,
{
    let stack = stack_of(tree, id, n);
    lemma_stack_len(tree, id, n);
    if n > 0 {
        every_child_is_stacked_once(tree, id, n - 1);
        lemma_stack_len(tree, id, n - 1);
        let below = stack_of(tree, id, n - 1);
        lemma_place_in(tree, id, below, n - 1, 0);
        let p = place_in(tree, id, below, n - 1, 0);
        assert(stack == below.insert(p, (n - 1) as usize));
        assert forall|k: usize| 0 <= k < n implies #[trigger] stack.contains(k) by {
            if k == n - 1 {
                assert(stack[p] == k);
            } else {
                assert(below.contains(k));
                let i = choose|i: int| 0 <= i < below.len() && below[i] == k;
                if i < p {
                    assert(stack[i] == k);
                } else {
                    assert(stack[i + 1] == k);
                }
            }
        }
        assert forall|i: int, j: int| 0 <= i < j < n implies stack[i] != stack[j] by {
            let i0 = if i < p { i } else { i - 1 };
            let j0 = if j < p { j } else { j - 1 };
            if i != p {
                assert(stack[i] == below[i0]);
            }
            if j != p {
                assert(stack[j] == below[j0]);
            }
            if i == p {
                assert(below[j0] < n - 1);
            } else if j == p {
                assert(below[i0] < n - 1);
            } else {
                assert(below[i0] != below[j0]);
            }
        }
    } else {
        assert(stack =~= Seq::<usize>::empty());
    }
    assert forall|k: usize| #[trigger] stack.contains(k) implies 0 <= k < n by {
        let i = choose|i: int| 0 <= i < stack.len() && stack[i] == k;
        assert(stack[i] < n);
    }
}

/// How siblings are stacked, by their position and their `z-index`. Of two children of a
/// box, the one that stands higher in its stack is
/// - positioned with a `z-index` that is not negative and not less, where the other one is
///   positioned with a `z-index` that is not negative;
/// - positioned with a `z-index` that is not negative, or in the flow as well, where the
///   other one is in the flow;
/// - not lower by its `z-index` in any case where both are positioned, or both are not;
/// - the later one, where nothing of this tells them apart.
pub proof fn siblings_are_stacked_by_z_index(tree: LayoutTree, id: int, n: int, i: int, j: int)
    requires
        0 <= i < j < n <= usize::MAX,
    ensures
        ({
            let stack = stack_of(tree, id, n);
            let kids = tree.boxes@[id].children@;
            let upper = tree.at(kids[stack[i] as int]);
            let lower = tree.at(kids[stack[j] as int]);
            let upper_in_flow = upper.position == CssPosition::Static;
            let lower_in_flow = lower.position == CssPosition::Static;
            &&& !lower_in_flow && lower.z_index >= 0 ==> !upper_in_flow && upper.z_index
                >= lower.z_index
            &&& lower_in_flow ==> upper_in_flow || upper.z_index >= 0
            &&& upper_in_flow == lower_in_flow ==> upper.z_index >= lower.z_index
            &&& upper_in_flow == lower_in_flow && upper.z_index == lower.z_index ==> stack[i]
                > stack[j]
        }),
{
    stacks_follow_paint_order(tree, id, n);
    let stack = stack_of(tree, id, n);
    assert(painted_above(tree, id, stack[i] as int, stack[j] as int));
}

/// A box with the number `i` among its siblings is painted above one with the number `j`.
pub open spec fn covers(a: LayoutBox, i: int, b: LayoutBox, j: int) -> bool {
    let later = b.z_index < a.z_index || (b.z_index == a.z_index && j < i);
    if a.position is Static {
        if b.position is Static {
            later
        } else {
            b.z_index < 0
        }
    } else if a.z_index >= 0 {
        b.position is Static || later
    } else {
        !(b.position is Static) && later
    }
}

/// Whatever is at the point in the `k`th child of the box `id`, by itself.
pub open spec fn hits_of_child(scene: Scene, dom: DomTree, id: int, p: Point, k: int) -> Seq<NodeId> {
    let child = scene.tree.boxes@[id].children@[k];
    match scene.in_child(id, child, p) {
        Some(q) => scene.hits(dom, child.0 as int, q, Seq::empty()),
        None => Seq::empty(),
    }
}

proof fn lemma_first_hit_of_stack(
    scene: Scene,
    dom: DomTree,
    id: int,
    p: Point,
    k: int,
    at: int,
)
    requires
        scene.tree.wf(),
        0 <= id < scene.tree.boxes@.len(),
        ({
            let n = scene.tree.boxes@[id].children@.len();
            let stack = stack_of(scene.tree, id, n as int);
            &&& 0 <= k <= at < n
            &&& hits_of_child(scene, dom, id, p, stack[at] as int).len() > 0
            &&& forall|j: int|
                k <= j < at ==> hits_of_child(
                    scene,
                    dom,
                    id,
                    p,
                    #[trigger] stack[j] as int,
                ).len() == 0
        }),
    ensures
        ({
            let n = scene.tree.boxes@[id].children@.len();
            let stack = stack_of(scene.tree, id, n as int);
            let found = scene.child_hits(dom, id, p, Seq::empty(), k);
            found.len() > 0 && found[0] == hits_of_child(scene, dom, id, p, stack[at] as int)[0]
        }),
    decreases at - k,
{
    assert(scene.tree.links_ok(id));
    let kids = scene.tree.boxes@[id].children@;
    let n = kids.len() as int;
    assert(n == scene.tree.boxes@[id].children.len());
    let stack = stack_of(scene.tree, id, n);
    lemma_stack_len(scene.tree, id, n);
    let child = kids[stack[k] as int];
    assert(id < child.0 < scene.tree.boxes@.len());
    let own = hits_of_child(scene, dom, id, p, stack[k] as int);
    if k < at {
        assert(own.len() == 0);
        assert(own =~= Seq::<NodeId>::empty());
        lemma_first_hit_of_stack(scene, dom, id, p, k + 1, at);
    } else {
        lemma_child_hits_added(scene, dom, id, p, own, k + 1);
        let found = scene.child_hits(dom, id, p, own, k + 1);
        assert(found.take(own.len() as int)[0] == own[0]);
    }
}

/// Of the children of a box that have something at a point, the one that is painted above
/// all others of them is hit first: positioned boxes come before those in the flow unless
/// their `z-index` is negative, a greater `z-index` before a smaller one, and with the same
/// one the later sibling before the earlier one.
pub proof fn the_topmost_sibling_is_hit_first(
    scene: Scene,
    dom: DomTree,
    id: int,
    p: Point,
    a: int,
)
    requires
        scene.tree.wf(),
        0 <= id < scene.tree.boxes@.len(),
        scene.tree.boxes@[id].multicol is None,
        scene.tree.boxes@[id].style.overflow_x is Visible,
        scene.tree.boxes@[id].style.overflow_y is Visible,
        0 <= a < scene.tree.boxes@[id].children@.len(),
        hits_of_child(scene, dom, id, p, a).len() > 0,
        forall|b: int|
            0 <= b < scene.tree.boxes@[id].children@.len() && b != a && (
            #[trigger] hits_of_child(scene, dom, id, p, b)).len() > 0 ==> covers(
                scene.tree.at(scene.tree.boxes@[id].children@[a]),
                a,
                scene.tree.at(scene.tree.boxes@[id].children@[b]),
                b,
            ),
    ensures
        scene.content_hits(dom, id, p, Seq::empty()).len() > 0,
        scene.content_hits(dom, id, p, Seq::empty())[0] == hits_of_child(
            scene,
            dom,
            id,
            p,
            a,
        )[0],
        scene.hits(dom, id, p, Seq::empty())[0] == hits_of_child(scene, dom, id, p, a)[0],
{
    assert(scene.tree.links_ok(id));
    let kids = scene.tree.boxes@[id].children@;
    let n = kids.len() as int;
    assert(n == scene.tree.boxes@[id].children.len());
    let stack = stack_of(scene.tree, id, n);
    every_child_is_stacked_once(scene.tree, id, n);
    lemma_stack_len(scene.tree, id, n);
    assert(stack.contains(a as usize));
    let at = choose|at: int| 0 <= at < stack.len() && stack[at] == a as usize;
    assert forall|j: int| 0 <= j < at implies hits_of_child(
        scene,
        dom,
        id,
        p,
        #[trigger] stack[j] as int,
    ).len() == 0 by {
        let b = stack[j] as int;
        assert(stack[j] != stack[at]);
        siblings_are_stacked_by_z_index(scene.tree, id, n, j, at);
        if hits_of_child(scene, dom, id, p, b).len() > 0 {
            assert(covers(scene.tree.at(kids[a]), a, scene.tree.at(kids[b]), b));
        }
    }
    lemma_first_hit_of_stack(scene, dom, id, p, 0, at);
}

/// A point in the border box of an element's own box hits the element, after whatever is
/// inside it, unless pointers pass through the box.
pub proof fn a_point_in_a_border_box_hits_its_element(
    scene: Scene,
    dom: DomTree,
    id: int,
    p: Point,
    out: Seq<NodeId>,
    node: NodeId,
    i: int,
)
    requires
        ({
            let b = scene.tree.boxes@[id];
            let size = b.final_layout.size;
            &&& b.dom_node == Some(node)
            &&& b.pseudo is None
            &&& !b.pointer_events_none
            &&& 0 <= p.x < size.width
            &&& 0 <= p.y < size.height
        }),
        dom.position(node) == Some(i as usize),
        0 <= i <= usize::MAX,
        dom.nodes@[i].kind == NodeKind::Element,
    ensures
        scene.hits(dom, id, p, out).len() > 0,
        scene.hits(dom, id, p, out).last() == node,
{
}

/// A box with nothing inside adds no hit where the point is not in its border box, and none
/// at all where pointers pass through it.
pub proof fn nothing_is_hit_past_the_border_or_through_a_box(
    scene: Scene,
    dom: DomTree,
    id: int,
    p: Point,
    out: Seq<NodeId>,
)
    requires
        ({
            let b = scene.tree.boxes@[id];
            let size = b.final_layout.size;
            &&& b.children@.len() == 0
            &&& b.multicol is None
            &&& b.ifc is None
            &&& b.pointer_events_none || p.x < 0 || p.x >= size.width || p.y < 0 || p.y
                >= size.height
        }),
    ensures
        scene.hits(dom, id, p, out) == out,
{
    assert(stack_of(scene.tree, id, 0) =~= Seq::<usize>::empty());
    assert(scene.child_hits(dom, id, p, out, 0) == out);
}

/// A box that does not show what goes past its edges hides its content from a point outside
/// its padding box.
pub proof fn clipped_content_is_not_hit(
    scene: Scene,
    dom: DomTree,
    id: int,
    p: Point,
    out: Seq<NodeId>,
)
    requires
        ({
            let b = scene.tree.boxes@[id];
            let l = b.final_layout;
            &&& b.style.overflow_x != Overflow::Visible || b.style.overflow_y != Overflow::Visible
            &&& p.x < l.border.left || p.y < l.border.top || p.x >= l.size.width - l.border.right
                || p.y >= l.size.height - l.border.bottom
        }),
    ensures
        scene.content_hits(dom, id, p, out) == out,
{
}

/// The point in the space of a child that is not transformed: past the scroll position of
/// the box around it, and from where the child is. Going back up leads to the point again.
pub proof fn entering_a_child_undoes_leaving_it(scene: Scene, id: int, child: BoxId, p: Point)
    requires
        scene.tree.at(child).transform is None,
        -0x100_0000_0000_0000 <= p.x <= 0x100_0000_0000_0000,
        -0x100_0000_0000_0000 <= p.y <= 0x100_0000_0000_0000,
        scene.scrolled(BoxId(id as u32)).x <= 0x100_0000_0000_0000,
        scene.scrolled(BoxId(id as u32)).y <= 0x100_0000_0000_0000,
    ensures
        match scene.in_child(id, child, p) {
            Some(q) => {
                let at = scene.tree.at(child).final_layout.location;
                let s = scene.scrolled(BoxId(id as u32));
                &&& q.x + at.x - s.x == p.x
                &&& q.y + at.y - s.y == p.y
            },
            None => false,
        },
{
    scroll_positions_are_in_range(scene, BoxId(id as u32));
}

/// The elements at a point end with the document element, and there are none at a point
/// outside the viewport.
pub proof fn the_document_element_is_hit_last(scene: Scene, dom: DomTree, x: int, y: int, root: BoxId)
    requires
        scene.tree.root == Some(root),
    ensures
        ({
            let all = scene.elements_at(dom, x, y);
            if 0 <= x < scene.viewport.width && 0 <= y < scene.viewport.height {
                match scene.tree.at(root).dom_node {
                    Some(node) => all.len() > 0 && all.last() == node,
                    None => true,
                }
            } else {
                all.len() == 0
            }
        }),
{
}

/// The item of a line is text of a node other than `element` at the horizontal position
/// `x`.
pub open spec fn is_text_of(item: LineItem, x: int, element: Option<NodeId>, node: NodeId) -> bool {
    match item {
        LineItem::Run { offset, advance, brush } => {
            &&& offset <= x < offset + advance
            &&& TextBrush::unpacked(brush.packed as int) == Some(node)
            &&& element != Some(node)
        },
        _ => false,
    }
}

proof fn lemma_run_at(items: Seq<LineItem>, x: int, element: Option<NodeId>, k: int)
    requires
        0 <= k <= items.len(),
    ensures
        match run_at(items, x, element, k) {
            Some(node) => exists|m: int|
                k <= m < items.len() && is_text_of(#[trigger] items[m], x, element, node),
            None => forall|m: int, node: NodeId|
                k <= m < items.len() ==> !(#[trigger] is_text_of(items[m], x, element, node)),
        },
    decreases items.len() - k,
{
    if k < items.len() {
        lemma_run_at(items, x, element, k + 1);
        match run_at(items, x, element, k) {
            Some(node) => {
                if is_text_of(items[k], x, element, node) {
                    assert(is_text_of(items[k], x, element, node));
                } else {
                    assert(run_at(items, x, element, k + 1) == Some(node));
                    let m = choose|m: int|
                        k + 1 <= m < items.len() && is_text_of(
                            #[trigger] items[m],
                            x,
                            element,
                            node,
                        );
                    assert(is_text_of(items[m], x, element, node));
                }
            },
            None => {
                assert(run_at(items, x, element, k + 1) is None);
                assert forall|m: int, node: NodeId| k <= m < items.len() implies !(
                #[trigger] is_text_of(items[m], x, element, node)) by {
                    if m > k {
                        assert(!is_text_of(items[m], x, element, node));
                    }
                }
            },
        }
    }
}

/// The text at a point is that of a node with a run on a line there: the line is there by
/// its baseline, its ascent and its descent, and the run by its offset and its advance. Where
/// none is found there is no such run, except of the element that the lines belong to.
pub proof fn text_is_found_on_its_line(lines: Seq<LineBox>, p: Point, element: Option<NodeId>, k: int)
    requires
        0 <= k <= lines.len(),
    ensures
        match text_at(lines, p, element, k) {
            Some(node) => exists|n: int, m: int|
                k <= n < lines.len() && lines[n].baseline - lines[n].ascent <= p.y
                    < lines[n].baseline + lines[n].descent && 0 <= m < lines[n].items@.len()
                    && is_text_of(
                    #[trigger] lines[n].items@[m],
                    p.x as int,
                    element,
                    node,
                ),
            None => forall|n: int, m: int, node: NodeId|
                k <= n < lines.len() && lines[n].baseline - lines[n].ascent <= p.y
                    < lines[n].baseline + lines[n].descent && 0 <= m < lines[n].items@.len()
                    ==> !(#[trigger] is_text_of(lines[n].items@[m], p.x as int, element, node)),
        },
    decreases lines.len() - k,
{
    if k < lines.len() {
        text_is_found_on_its_line(lines, p, element, k + 1);
        let items = lines[k].items@;
        lemma_run_at(items, p.x as int, element, 0);
        match text_at(lines, p, element, k) {
            Some(node) => {
                if line_covers(lines[k], p.y as int) && run_at(items, p.x as int, element, 0)
                    == Some(node) {
                    let m = choose|m: int|
                        0 <= m < items.len() && is_text_of(
                            #[trigger] items[m],
                            p.x as int,
                            element,
                            node,
                        );
                    assert(is_text_of(lines[k].items@[m], p.x as int, element, node));
                } else {
                    let (n, m) = choose|n: int, m: int|
                        k + 1 <= n < lines.len() && lines[n].baseline - lines[n].ascent <= p.y
                            < lines[n].baseline + lines[n].descent && 0 <= m
                            < lines[n].items@.len() && is_text_of(
                            #[trigger] lines[n].items@[m],
                            p.x as int,
                            element,
                            node,
                        );
                    assert(is_text_of(lines[n].items@[m], p.x as int, element, node));
                }
            },
            None => {},
        }
    }
}

} // verus!
