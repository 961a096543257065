//! Builds the box tree from the steps of its construction.

use vstd::prelude::*;

use crate::construct::{BoxDesc, Builder, CellPlace, InlineSource, Step, StyleOf};
use crate::document::Styled;
use crate::grid::{
    grids_are_limited, is_limited, limited_grid, no_grid, GridStyle, GridValues,
};
use crate::style::{
    anonymous_box_style, anonymous_style, capture_text_fields, carries, layout_style, no_borders,
    plain_keywords, taffy_style_for, BorderLine, BorderSide, Borders, ComputedStyle, CssDisplay,
    DisplayInside, DisplayOutside, LineHeight, PhysicalSide, SafeAlignments, SizeKeyword,
    SizeKeywords, TableStyle, TextCase, WhiteSpace,
};
use crate::tree::{
    initial_style, zero_layout, BoxId, BoxKind, BoxStyle, ColumnGap, CssPosition, Display, Float,
    LayoutBox, LayoutTree, MulticolConfig, MulticolContext, NodeId, Placement, Viewport,
};
use crate::units::{Point, Rect};

verus! {

/// A box tree, and what is yet to be laid out of its content.
pub struct Built {
    pub tree: LayoutTree,
    /// The style that each box was built with.
    pub styles: Vec<StyleOf>,
    /// The inline content of each box.
    pub inline: Vec<InlineSource>,
    /// The inline items of boxes, in order.
    pub items: Vec<(BoxId, usize)>,
    /// The table cells, in order.
    pub cells: Vec<(BoxId, CellPlace)>,
    /// The number of rows of each table.
    pub rows: Vec<(BoxId, u32)>,
}

/// What a number of steps lead to.
#[verifier::ext_equal]
pub ghost struct Trace {
    /// The boxes that have been opened.
    pub descs: Seq<BoxDesc>,
    /// The box that each of them was opened in.
    pub parents: Seq<Option<BoxId>>,
    /// The content flow of each of them, if it is a multi-column container.
    pub flows: Seq<Option<BoxId>>,
    /// The boxes that are open, the innermost last.
    pub stack: Seq<BoxId>,
    pub items: Seq<(BoxId, usize)>,
    pub cells: Seq<(BoxId, CellPlace)>,
    pub rows: Seq<(BoxId, u32)>,
    /// The place of the cell that is opened next.
    pub pending: Option<CellPlace>,
}

/// The last of a sequence, if there is one.
pub open spec fn innermost(stack: Seq<BoxId>) -> Option<BoxId> {
    if stack.len() > 0 {
        Some(stack.last())
    } else {
        None
    }
}

/// The flows after a box has been opened.
pub open spec fn flows_after(t: Trace, desc: BoxDesc, id: BoxId) -> Seq<Option<BoxId>> {
    match innermost(t.stack) {
        Some(p) => if t.descs[p.0 as int].kind is MulticolRoot && desc.node is None {
            t.flows.update(p.0 as int, Some(id)).push(None)
        } else {
            t.flows.push(None)
        },
        None => t.flows.push(None),
    }
}

/// What one more step leads to.
pub open spec fn after_step(t: Trace, step: Step) -> Trace {
    match step {
        Step::Cell(place) => Trace { pending: Some(place), ..t },
        Step::Inline(c) => Trace {
            items: match innermost(t.stack) {
                Some(id) => t.items.push((id, c)),
                None => t.items,
            },
            ..t
        },
        Step::Rows(rows) => Trace {
            rows: match innermost(t.stack) {
                Some(id) => t.rows.push((id, rows)),
                None => t.rows,
            },
            ..t
        },
        Step::Close => Trace {
            stack: if t.stack.len() > 0 {
                t.stack.drop_last()
            } else {
                t.stack
            },
            ..t
        },
        Step::Open(desc) => {
            let id = BoxId(t.descs.len() as u32);
            Trace {
                descs: t.descs.push(desc),
                parents: t.parents.push(innermost(t.stack)),
                flows: flows_after(t, desc, id),
                stack: t.stack.push(id),
                items: t.items,
                cells: match t.pending {
                    Some(place) => t.cells.push((id, place)),
                    None => t.cells,
                },
                rows: t.rows,
                pending: None,
            }
        },
    }
}

/// What the first `k` steps lead to.
pub open spec fn trace(steps: Seq<Step>, k: int) -> Trace
    decreases k,
{
    if k <= 0 {
        Trace {
            descs: Seq::empty(),
            parents: Seq::empty(),
            flows: Seq::empty(),
            stack: Seq::empty(),
            items: Seq::empty(),
            cells: Seq::empty(),
            rows: Seq::empty(),
            pending: None,
        }
    } else {
        after_step(trace(steps, k - 1), steps[k - 1])
    }
}

/// The initial values.
pub open spec fn initial_values() -> ComputedStyle {
    ComputedStyle {
        display: crate::style::inline_display(),
        position: CssPosition::Static,
        float: Float::Off,
        order: 0,
        z_index: 0,
        pointer_events_none: false,
        has_transform: false,
        box_style: initial_style(),
        keywords: plain_keywords(),
        justify_side: PhysicalSide::Neither,
        safe: SafeAlignments { items: false, own: false, content: false, justify: false },
        font_size: 1024,
        line_height: LineHeight::Normal,
        white_space: WhiteSpace::Collapse,
        text_case: TextCase::Unchanged,
        multicol: MulticolConfig { count: None, width: None, gap: ColumnGap::Normal },
        table: TableStyle { fixed: false, collapse: false, spacing_x: 0, spacing_y: 0 },
        borders: no_borders(),
    }
}

fn make_initial_values() -> (r: ComputedStyle)
    ensures
        r == initial_values(),
{
    let side = BorderSide { width: 0, line: BorderLine::Hidden };
    ComputedStyle {
        display: CssDisplay {
            outside: DisplayOutside::Inline,
            inside: DisplayInside::Flow,
            list_item: false,
        },
        position: CssPosition::Static,
        float: Float::Off,
        order: 0,
        z_index: 0,
        pointer_events_none: false,
        has_transform: false,
        box_style: BoxStyle::initial(),
        keywords: SizeKeywords {
            width: SizeKeyword::Plain,
            height: SizeKeyword::Plain,
            min_width: SizeKeyword::Plain,
            min_height: SizeKeyword::Plain,
            max_width: SizeKeyword::Plain,
            max_height: SizeKeyword::Plain,
            flex_basis: SizeKeyword::Plain,
        },
        justify_side: PhysicalSide::Neither,
        safe: SafeAlignments { items: false, own: false, content: false, justify: false },
        font_size: 1024,
        line_height: LineHeight::Normal,
        white_space: WhiteSpace::Collapse,
        text_case: TextCase::Unchanged,
        multicol: MulticolConfig { count: None, width: None, gap: ColumnGap::Normal },
        table: TableStyle { fixed: false, collapse: false, spacing_x: 0, spacing_y: 0 },
        borders: Borders { left: side, right: side, top: side, bottom: side },
    }
}

/// The computed values of the node at `i`, or the initial ones.
pub open spec fn primary_values(doc: Styled, i: int) -> ComputedStyle {
    if 0 <= i < doc.styles@.len() {
        match doc.styles@[i].primary {
            Some(s) => s,
            None => initial_values(),
        }
    } else {
        initial_values()
    }
}

/// The computed values that a box has.
pub open spec fn values_of(doc: Styled, style: StyleOf) -> ComputedStyle {
    match style {
        StyleOf::Element(i) => primary_values(doc, i as int),
        StyleOf::Anonymous(i) => anonymous_style(primary_values(doc, i as int)),
        StyleOf::Before(i) => if i < doc.styles@.len() {
            match doc.styles@[i as int].before {
                Some(p) => p.style,
                None => initial_values(),
            }
        } else {
            initial_values()
        },
        StyleOf::After(i) => if i < doc.styles@.len() {
            match doc.styles@[i as int].after {
                Some(p) => p.style,
                None => initial_values(),
            }
        } else {
            initial_values()
        },
    }
}

fn find_primary(doc: &Styled, i: usize) -> (r: ComputedStyle)
    ensures
        r == primary_values(*doc, i as int),
{
    if i < doc.styles.len() {
        match &doc.styles[i].primary {
            Some(s) => *s,
            None => make_initial_values(),
        }
    } else {
        make_initial_values()
    }
}

/// The computed values that a box has.
pub fn find_values(doc: &Styled, style: StyleOf) -> (r: ComputedStyle)
    ensures
        r == values_of(*doc, style),
{
    match style {
        StyleOf::Element(i) => find_primary(doc, i),
        StyleOf::Anonymous(i) => anonymous_box_style(&find_primary(doc, i)),
        StyleOf::Before(i) => {
            if i < doc.styles.len() {
                if let Some(p) = &doc.styles[i].before {
                    return p.style;
                }
            }
            make_initial_values()
        },
        StyleOf::After(i) => {
            if i < doc.styles.len() {
                if let Some(p) = &doc.styles[i].after {
                    return p.style;
                }
            }
            make_initial_values()
        },
    }
}

/// The grid properties that a box has.
pub open spec fn grid_of(doc: Styled, style: StyleOf) -> GridValues {
    match style {
        StyleOf::Element(i) => if i < doc.styles@.len() && doc.styles@[i as int].primary is Some {
            doc.styles@[i as int].grid@
        } else {
            no_grid()
        },
        StyleOf::Anonymous(i) => no_grid(),
        StyleOf::Before(i) => if i < doc.styles@.len() {
            match doc.styles@[i as int].before {
                Some(p) => p.grid@,
                None => no_grid(),
            }
        } else {
            no_grid()
        },
        StyleOf::After(i) => if i < doc.styles@.len() {
            match doc.styles@[i as int].after {
                Some(p) => p.grid@,
                None => no_grid(),
            }
        } else {
            no_grid()
        },
    }
}

/// The grid properties that a box has, where its style has any.
fn find_grid(doc: &Styled, style: StyleOf) -> (r: Option<&GridStyle>)
    ensures
        match r {
            Some(g) => g@ == grid_of(*doc, style),
            None => grid_of(*doc, style) == no_grid(),
        },
{
    match style {
        StyleOf::Element(i) => if i < doc.styles.len() && doc.styles[i].primary.is_some() {
            Some(&doc.styles[i].grid)
        } else {
            None
        },
        StyleOf::Anonymous(_) => None,
        StyleOf::Before(i) => {
            if i < doc.styles.len() {
                if let Some(p) = &doc.styles[i].before {
                    return Some(&p.grid);
                }
            }
            None
        },
        StyleOf::After(i) => {
            if i < doc.styles.len() {
                if let Some(p) = &doc.styles[i].after {
                    return Some(&p.grid);
                }
            }
            None
        },
    }
}

/// What the layout algorithms are given for a box.
pub open spec fn box_style_of(values: ComputedStyle, desc: BoxDesc) -> BoxStyle {
    let s = layout_style(values);
    BoxStyle {
        display: if desc.as_block {
            Display::Block
        } else {
            s.display
        },
        placement: if desc.outside {
            Placement::OutOfFlow
        } else {
            s.placement
        },
        ..s
    }
}

/// The node that a box belongs to.
pub open spec fn node_of(doc: Styled, desc: BoxDesc) -> Option<NodeId> {
    match desc.node {
        Some(i) => if i < doc.dom.nodes@.len() {
            Some(doc.dom.nodes@[i as int].id)
        } else {
            None
        },
        None => None,
    }
}

/// The box is the one that was opened, but for its links.
pub open spec fn is_made(doc: Styled, b: LayoutBox, desc: BoxDesc) -> bool {
    let values = values_of(doc, desc.style);
    &&& b.kind == desc.kind
    &&& b.dom_node == node_of(doc, desc)
    &&& b.pseudo == desc.pseudo
    &&& b.style == box_style_of(values, desc)
    &&& b.grid@ == limited_grid(grid_of(doc, desc.style))
    &&& carries(b, values)
    &&& b.force_bfc == desc.force_bfc
    &&& b.replaced == desc.replaced
    &&& b.static_parent is None
    &&& b.hoisted_children@.len() == 0
    &&& b.transform is None
    &&& b.ifc is None
    &&& b.unrounded_layout == zero_layout()
    &&& b.final_layout == zero_layout()
    &&& b.post_layout_offset == (Point { x: 0, y: 0 })
    &&& b.scrollable_overflow == (Rect { x: 0, y: 0, width: 0, height: 0 })
    &&& !b.stale
}

/// The box holds its content in `flow`, in columns that are yet to be found.
pub open spec fn has_flow(doc: Styled, b: LayoutBox, desc: BoxDesc, flow: Option<BoxId>) -> bool {
    match (b.multicol, flow) {
        (Some(mc), Some(f)) => {
            &&& mc.flow == f
            &&& mc.config == values_of(doc, desc.style).multicol
            &&& mc.used_width == 0
            &&& mc.used_gap == 0
            &&& mc.boundaries@.len() == 0
            &&& mc.columns@.len() == 0
        },
        (None, None) => true,
        _ => false,
    }
}

/// The first child comes before the second: it was opened before it, unless children are
/// laid out by their `order` and theirs differ.
pub open spec fn comes_first(tree: LayoutTree, ordered: bool, a: BoxId, b: BoxId) -> bool {
    if ordered && tree.at(a).order != tree.at(b).order {
        tree.at(a).order < tree.at(b).order
    } else {
        a.0 < b.0
    }
}

/// The children of the `n`th box are in order.
pub open spec fn in_order(tree: LayoutTree, n: int, ordered: bool) -> bool {
    let kids = tree.boxes@[n].children@;
    forall|x: int, y: int|
        0 <= x < y < kids.len() ==> comes_first(
            tree,
            ordered,
            #[trigger] kids[x],
            #[trigger] kids[y],
        )
}

/// The principal boxes after the first `n` boxes: each node has the last box that was opened
/// for it, those of its pseudo-elements aside.
pub open spec fn principal_map(doc: Styled, descs: Seq<BoxDesc>, n: int) -> Map<u64, BoxId>
    decreases n,
{
    if n <= 0 {
        Map::empty()
    } else {
        let rest = principal_map(doc, descs, n - 1);
        match (descs[n - 1].pseudo, node_of(doc, descs[n - 1])) {
            (None, Some(node)) => rest.insert(node.key(), BoxId((n - 1) as u32)),
            _ => rest,
        }
    }
}

proof fn lemma_principal_prefix(doc: Styled, descs: Seq<BoxDesc>, desc: BoxDesc, n: int)
    requires
        n <= descs.len(),
    ensures
        principal_map(doc, descs.push(desc), n) == principal_map(doc, descs, n),
    decreases n,
{
    if n > 0 {
        lemma_principal_prefix(doc, descs, desc, n - 1);
        assert(descs.push(desc)[n - 1] == descs[n - 1]);
    }
}

/// The tree is what the steps lead to.
pub open spec fn is_built(doc: Styled, tree: LayoutTree, t: Trace) -> bool {
    &&& tree.wf()
    &&& tree.node_to_box@ == principal_map(doc, t.descs, t.descs.len() as int)
    &&& tree.boxes@.len() == t.descs.len()
    &&& t.parents.len() == t.descs.len()
    &&& t.flows.len() == t.descs.len()
    &&& forall|n: int|
        0 <= n < t.descs.len() ==> #[trigger] box_is_built(doc, tree, t, n)
}

/// The `n`th box is what the steps lead to.
pub open spec fn box_is_built(doc: Styled, tree: LayoutTree, t: Trace, n: int) -> bool {
    &&& is_made(doc, tree.boxes@[n], t.descs[n])
    &&& tree.boxes@[n].parent == t.parents[n]
    &&& has_flow(doc, tree.boxes@[n], t.descs[n], t.flows[n])
    &&& in_order(tree, n, t.descs[n].ordered)
}

/// A box as it is opened, without links.
fn make_box(doc: &Styled, desc: &BoxDesc) -> (r: LayoutBox)
    requires
        doc.wf(),
    ensures
        is_made(*doc, r, *desc),
        r.is_fresh(),
{
    let values: ComputedStyle = find_values(doc, desc.style);
    let none: GridStyle = GridStyle::initial();
    let given: &GridStyle = match find_grid(doc, desc.style) {
        Some(g) => g,
        None => &none,
    };
    let (mut style, grid): (BoxStyle, GridStyle) = taffy_style_for(&values, given);
    if desc.as_block {
        style.display = Display::Block;
    }
    if desc.outside {
        style.placement = Placement::OutOfFlow;
    }
    let node: Option<NodeId> = match desc.node {
        Some(i) => if i < doc.dom.nodes.len() {
            Some(doc.dom.nodes[i].id)
        } else {
            None
        },
        None => None,
    };
    let mut b: LayoutBox = LayoutBox::new(desc.kind, node, style);
    capture_text_fields(&mut b, &values);
    b.grid = grid;
    b.pseudo = desc.pseudo;
    b.force_bfc = desc.force_bfc;
    b.replaced = desc.replaced;
    b
}

/// Where a new child goes among the children of `parent`: after all that come before it by
/// their `order`.
fn child_place(tree: &LayoutTree, parent: BoxId, order: i32) -> (r: usize)
    requires
        tree.wf(),
        tree.has(parent),
    ensures
        r <= tree.at(parent).children@.len(),
        forall|j: int|
            0 <= j < r ==> tree.at(#[trigger] tree.at(parent).children@[j]).order <= order,
        r < tree.at(parent).children@.len() ==> tree.at(
            tree.at(parent).children@[r as int],
        ).order > order,
{
    assert(tree.links_ok(parent.0 as int));
    let p: &LayoutBox = tree.box_(parent);
    let mut j: usize = 0;
    while j < p.children.len() && tree.box_(p.children[j]).order <= order
        invariant
            j <= p.children@.len(),
            tree.wf(),
            tree.has(parent),
            *p == tree.at(parent),
            tree.links_ok(parent.0 as int),
            forall|x: int|
                0 <= x < j ==> tree.at(#[trigger] tree.at(parent).children@[x]).order <= order,
        decreases p.children.len() - j,
    {
        j = j + 1;
    }
    j
}

/// Adding an unlinked box changes nothing for the others.
proof fn lemma_pushed(doc: Styled, start: LayoutTree, pushed: LayoutTree, t: Trace)
    requires
        is_built(doc, start, t),
        pushed.boxes@.len() == start.boxes@.len() + 1,
        forall|n: int|
            0 <= n < start.boxes@.len() ==> #[trigger] pushed.boxes@[n] == start.boxes@[n],
    ensures
        forall|n: int| 0 <= n < t.descs.len() ==> #[trigger] box_is_built(doc, pushed, t, n),
{
    assert forall|n: int| 0 <= n < t.descs.len() implies #[trigger] box_is_built(
        doc,
        pushed,
        t,
        n,
    ) by {
        assert(box_is_built(doc, start, t, n));
        assert(pushed.boxes@[n] == start.boxes@[n]);
        assert(start.links_ok(n));
        let kids = start.boxes@[n].children@;
        assert forall|x: int, y: int| 0 <= x < y < kids.len() implies comes_first(
            pushed,
            t.descs[n].ordered,
            #[trigger] kids[x],
            #[trigger] kids[y],
        ) by {
            assert(comes_first(start, t.descs[n].ordered, kids[x], kids[y]));
        }
    }
}

/// The children of a box stay in order when a child that was opened last is put where its
/// `order` says.
proof fn lemma_inserted(
    a: LayoutTree,
    b: LayoutTree,
    p: BoxId,
    id: BoxId,
    at: int,
    ordered: bool,
)
    requires
        a.wf(),
        a.has(p),
        id.0 == a.boxes@.len() - 1,
        b.boxes@.len() == a.boxes@.len(),
        forall|n: int| 0 <= n < a.boxes@.len() ==> b.boxes@[n].order == #[trigger] a.boxes@[n].order,
        in_order(a, p.0 as int, ordered),
        0 <= at <= a.at(p).children@.len(),
        a.at(id).parent is None,
        b.at(p).children@ == a.at(p).children@.insert(at, id),
        ordered ==> forall|j: int|
            0 <= j < at ==> a.at(#[trigger] a.at(p).children@[j]).order <= a.at(id).order,
        ordered && at < a.at(p).children@.len() ==> a.at(a.at(p).children@[at]).order > a.at(
            id,
        ).order,
        !ordered ==> at == a.at(p).children@.len(),
    ensures
        in_order(b, p.0 as int, ordered),
{
    assert(a.links_ok(p.0 as int));
    let old_kids = a.at(p).children@;
    let kids = b.at(p).children@;
    assert forall|k: int| 0 <= k < old_kids.len() implies (#[trigger] old_kids[k]).0 < id.0 by {
        assert(a.boxes@[old_kids[k].0 as int].parent == Some(p));
    }
    assert forall|x: int, y: int| 0 <= x < y < kids.len() implies comes_first(
        b,
        ordered,
        #[trigger] kids[x],
        #[trigger] kids[y],
    ) by {
        if y < at {
            assert(kids[x] == old_kids[x] && kids[y] == old_kids[y]);
            assert(comes_first(a, ordered, old_kids[x], old_kids[y]));
        } else if y == at {
            assert(kids[x] == old_kids[x] && kids[y] == id);
        } else if x < at {
            assert(kids[x] == old_kids[x] && kids[y] == old_kids[y - 1]);
            assert(comes_first(a, ordered, old_kids[x], old_kids[y - 1]));
        } else if x == at {
            assert(kids[x] == id && kids[y] == old_kids[y - 1]);
            if y - 1 > at {
                assert(comes_first(a, ordered, old_kids[at], old_kids[y - 1]));
            }
        } else {
            assert(kids[x] == old_kids[x - 1] && kids[y] == old_kids[y - 1]);
            assert(comes_first(a, ordered, old_kids[x - 1], old_kids[y - 1]));
        }
    }
}

/// Links do not matter to how a box was made.
proof fn lemma_made(doc: Styled, a: LayoutBox, b: LayoutBox, desc: BoxDesc)
    requires
        is_made(doc, a, desc),
        b == (LayoutBox {
            parent: b.parent,
            children: b.children,
            multicol: b.multicol,
            ..a
        }),
    ensures
        is_made(doc, b, desc),
{
}

/// Boxes in order stay so where neither the list nor any `order` changes.
proof fn lemma_order_kept(a: LayoutTree, b: LayoutTree, n: int, ordered: bool)
    requires
        a.wf(),
        0 <= n < a.boxes@.len() == b.boxes@.len(),
        a.boxes@[n].children@ == b.boxes@[n].children@,
        forall|m: int| 0 <= m < a.boxes@.len() ==> b.boxes@[m].order == #[trigger] a.boxes@[m].order,
        in_order(a, n, ordered),
    ensures
        in_order(b, n, ordered),
{
    assert(a.links_ok(n));
    let kids = a.boxes@[n].children@;
    assert forall|x: int, y: int| 0 <= x < y < kids.len() implies comes_first(
        b,
        ordered,
        #[trigger] kids[x],
        #[trigger] kids[y],
    ) by {
        assert(comes_first(a, ordered, kids[x], kids[y]));
        assert(b.boxes@[kids[x].0 as int].order == a.boxes@[kids[x].0 as int].order);
        assert(b.boxes@[kids[y].0 as int].order == a.boxes@[kids[y].0 as int].order);
    }
}

/// A box that was added to `pushed` and then linked to its parent.
proof fn lemma_opened(
    doc: Styled,
    pushed: LayoutTree,
    linked: LayoutTree,
    now: LayoutTree,
    t: Trace,
    desc: BoxDesc,
    p: BoxId,
    outer: BoxDesc,
    id: BoxId,
)
    requires
        t.descs.len() == t.parents.len() == t.flows.len() < u32::MAX,
        innermost(t.stack) == Some(p),
        p.0 < t.descs.len(),
        outer == t.descs[p.0 as int],
        id.0 == t.descs.len(),
        forall|n: int| 0 <= n < t.descs.len() ==> #[trigger] box_is_built(doc, pushed, t, n),
        pushed.wf(),
        linked.wf(),
        now.wf(),
        pushed.boxes@.len() == t.descs.len() + 1,
        linked.boxes@.len() == pushed.boxes@.len(),
        is_made(doc, pushed.at(id), desc),
        pushed.at(id).is_fresh(),
        linked.at(p) == (LayoutBox { children: linked.at(p).children, ..pushed.at(p) }),
        linked.at(id) == (LayoutBox { parent: Some(p), ..pushed.at(id) }),
        forall|i: int|
            0 <= i < pushed.boxes@.len() && i != p.0 && i != id.0
                ==> #[trigger] linked.boxes@[i] == pushed.boxes@[i],
        in_order(linked, p.0 as int, outer.ordered),
        if outer.kind is MulticolRoot && desc.node is None {
            &&& now.boxes@ == linked.boxes@.update(
                p.0 as int,
                LayoutBox { multicol: now.at(p).multicol, ..linked.at(p) },
            )
            &&& has_flow(doc, now.at(p), outer, Some(id))
        } else {
            now.boxes@ == linked.boxes@
        },
        now.node_to_box@ == principal_map(
            doc,
            t.descs.push(desc),
            t.descs.push(desc).len() as int,
        ),
    ensures
        is_built(doc, now, after_step(t, Step::Open(desc))),
{
    let next = after_step(t, Step::Open(desc));
    assert(next.descs == t.descs.push(desc));
    assert forall|m: int| 0 <= m < pushed.boxes@.len() implies linked.boxes@[m].order
        == #[trigger] pushed.boxes@[m].order by {
        if m == p.0 || m == id.0 {
        }
    }
    assert forall|m: int| 0 <= m < pushed.boxes@.len() implies now.boxes@[m].order
        == #[trigger] pushed.boxes@[m].order by {
        assert(linked.boxes@[m].order == pushed.boxes@[m].order);
    }
    assert forall|n: int| 0 <= n < next.descs.len() implies #[trigger] box_is_built(
        doc,
        now,
        next,
        n,
    ) by {
        if n == id.0 {
            lemma_made(doc, pushed.boxes@[n], now.boxes@[n], desc);
            assert(next.descs[n] == desc);
            assert(next.parents[n] == Some(p));
            assert(next.flows[n] is None);
        } else {
            assert(box_is_built(doc, pushed, t, n));
            assert(next.descs[n] == t.descs[n]);
            assert(next.parents[n] == t.parents[n]);
            if n == p.0 {
                lemma_made(doc, pushed.boxes@[n], now.boxes@[n], t.descs[n]);
                assert forall|m: int| 0 <= m < linked.boxes@.len() implies now.boxes@[m].order
                    == #[trigger] linked.boxes@[m].order by {}
                lemma_order_kept(linked, now, n, outer.ordered);
            } else {
                assert(now.boxes@[n] == pushed.boxes@[n]);
                assert(next.flows[n] == t.flows[n]);
                lemma_order_kept(pushed, now, n, t.descs[n].ordered);
            }
        }
    }
}

/// Opens a box in a tree that a trace has led to.
fn open_box(
    doc: &Styled,
    tree: &mut LayoutTree,
    desc: &BoxDesc,
    parent: Option<(BoxId, BoxDesc)>,
    Ghost(t): Ghost<Trace>,
) -> (id: BoxId)
    requires
        doc.wf(),
        is_built(*doc, *old(tree), t),
        old(tree).root is None,
        old(tree).boxes@.len() < u32::MAX,
        match parent {
            Some(p) => innermost(t.stack) == Some(p.0) && p.0.0 < t.descs.len() && p.1
                == t.descs[p.0.0 as int],
            None => innermost(t.stack) is None,
        },
    ensures
        id.0 == t.descs.len(),
        is_built(*doc, *final(tree), after_step(t, Step::Open(*desc))),
        final(tree).root is None,
        final(tree).viewport == old(tree).viewport,
{
    let b: LayoutBox = make_box(doc, desc);
    let order: i32 = b.order;
    let ghost start = *tree;
    let id: BoxId = tree.push_box(b);
    let ghost pushed = *tree;
    let ghost next = after_step(t, Step::Open(*desc));
    proof {
        lemma_pushed(*doc, start, pushed, t);
        lemma_principal_prefix(*doc, t.descs, *desc, t.descs.len() as int);
        assert(t.descs.push(*desc)[t.descs.len() as int] == *desc);
        assert(pushed.node_to_box@ =~= principal_map(
            *doc,
            t.descs.push(*desc),
            t.descs.push(*desc).len() as int,
        ));
    }
    if let Some((p, outer)) = parent {
        assert(tree.links_ok(p.0 as int));
        assert(box_is_built(*doc, pushed, t, p.0 as int));
        let at: usize = if outer.ordered {
            child_place(tree, p, order)
        } else {
            tree.boxes[p.0 as usize].children.len()
        };
        tree.insert_child(p, id, at);
        let ghost linked = *tree;
        proof {
            lemma_inserted(pushed, linked, p, id, at as int, outer.ordered);
        }
        if outer.kind == BoxKind::MulticolRoot && desc.node.is_none() {
            let config: MulticolConfig = find_values(doc, outer.style).multicol;
            tree.set_multicol(
                p,
                MulticolContext {
                    config,
                    flow: id,
                    used_width: 0,
                    used_gap: 0,
                    boundaries: Vec::new(),
                    columns: Vec::new(),
                },
            );
        }
        proof {
            lemma_opened(*doc, pushed, linked, *tree, t, *desc, p, outer, id);
        }
    } else {
        proof {
            assert forall|n: int| 0 <= n < next.descs.len() implies #[trigger] box_is_built(
                *doc,
                *tree,
                next,
                n,
            ) by {
                if n < t.descs.len() {
                    assert(box_is_built(*doc, pushed, t, n));
                    assert(next.descs[n] == t.descs[n]);
                    assert(next.parents[n] == t.parents[n]);
                    assert(next.flows[n] == t.flows[n]);
                }
            }
        }
    }
    id
}

/// The boxes that are open belong to the tree.
spec fn stack_ok(stack: Seq<(BoxId, BoxDesc)>, t: Trace) -> bool {
    &&& stack.len() == t.stack.len()
    &&& forall|k: int|
        0 <= k < stack.len() ==> (#[trigger] stack[k]).0 == t.stack[k] && stack[k].0.0
            < t.descs.len() && stack[k].1 == t.descs[stack[k].0.0 as int]
}

/// The style of each box.
pub open spec fn styles_in(t: Trace) -> Seq<StyleOf> {
    t.descs.map_values(|d: BoxDesc| d.style)
}

/// The inline content of each box.
pub open spec fn sources(t: Trace) -> Seq<InlineSource> {
    t.descs.map_values(|d: BoxDesc| d.inline)
}

/// Steps open no fewer boxes than the first of them.
proof fn lemma_steps_add_boxes(steps: Seq<Step>, k: int, n: int)
    requires
        0 <= k <= n <= steps.len(),
    ensures
        trace(steps, k).descs.len() <= trace(steps, n).descs.len(),
    decreases n,
{
    if k < n {
        lemma_steps_add_boxes(steps, k, n - 1);
    }
}

/// How many boxes steps open.
fn count_boxes(steps: &Vec<Step>) -> (r: usize)
    ensures
        r == trace(steps@, steps@.len() as int).descs.len(),
{
    let mut count: usize = 0;
    let mut k: usize = 0;
    while k < steps.len()
        invariant
            k <= steps@.len(),
            count == trace(steps@, k as int).descs.len(),
            count <= k,
        decreases steps.len() - k,
    {
        if let Step::Open(_) = steps[k] {
            count = count + 1;
        }
        k = k + 1;
    }
    count
}

/// Builds the tree that steps lead to. They open no more boxes than can be numbered.
pub fn replay(doc: &Styled, steps: &Vec<Step>, viewport: Viewport) -> (r: Built)
    requires
        doc.wf(),
        trace(steps@, steps@.len() as int).descs.len() <= u32::MAX,
    ensures
        ({
            let t = trace(steps@, steps@.len() as int);
            &&& is_built(*doc, r.tree, t)
            &&& r.tree.root == if t.descs.len() > 0 && t.parents[0] is None {
                Some(BoxId(0))
            } else {
                None
            }
            &&& r.tree.viewport == viewport
            &&& r.styles@ == styles_in(t)
            &&& r.inline@ == sources(t)
            &&& r.items@ == t.items
            &&& r.cells@ == t.cells
            &&& r.rows@ == t.rows
        }),
{
    let mut tree: LayoutTree = LayoutTree::new(viewport);
    let mut styles: Vec<StyleOf> = Vec::new();
    let mut inline: Vec<InlineSource> = Vec::new();
    let mut items: Vec<(BoxId, usize)> = Vec::new();
    let mut cells: Vec<(BoxId, CellPlace)> = Vec::new();
    let mut rows: Vec<(BoxId, u32)> = Vec::new();
    let mut stack: Vec<(BoxId, BoxDesc)> = Vec::new();
    let mut pending: Option<CellPlace> = None;
    let mut k: usize = 0;
    assert(styles@ =~= styles_in(trace(steps@, 0)));
    assert(inline@ =~= sources(trace(steps@, 0)));
    while k < steps.len()
        invariant
            k <= steps@.len(),
            trace(steps@, steps@.len() as int).descs.len() <= u32::MAX,
            doc.wf(),
            is_built(*doc, tree, trace(steps@, k as int)),
            tree.root is None,
            tree.viewport == viewport,
            styles@ == styles_in(trace(steps@, k as int)),
            inline@ == sources(trace(steps@, k as int)),
            items@ == trace(steps@, k as int).items,
            cells@ == trace(steps@, k as int).cells,
            rows@ == trace(steps@, k as int).rows,
            pending == trace(steps@, k as int).pending,
            stack_ok(stack@, trace(steps@, k as int)),
        decreases steps.len() - k,
    {
        let ghost t = trace(steps@, k as int);
        let step: Step = steps[k];
        assert(trace(steps@, k + 1) == after_step(t, step));
        let top: Option<(BoxId, BoxDesc)> = if stack.len() > 0 {
            Some(stack[stack.len() - 1])
        } else {
            None
        };
        match step {
            Step::Cell(place) => {
                pending = Some(place);
                proof {
                    lemma_same_boxes(*doc, tree, t, after_step(t, step));
                }
            },
            Step::Inline(c) => {
                if let Some((id, _)) = top {
                    items.push((id, c));
                }
                proof {
                    lemma_same_boxes(*doc, tree, t, after_step(t, step));
                }
            },
            Step::Rows(count) => {
                if let Some((id, _)) = top {
                    rows.push((id, count));
                }
                proof {
                    lemma_same_boxes(*doc, tree, t, after_step(t, step));
                }
            },
            Step::Close => {
                if stack.len() > 0 {
                    stack.pop();
                }
                proof {
                    lemma_same_boxes(*doc, tree, t, after_step(t, step));
                }
            },
            Step::Open(desc) => {
                proof {
                    lemma_steps_add_boxes(steps@, k + 1, steps@.len() as int);
                }
                let id: BoxId = open_box(doc, &mut tree, &desc, top, Ghost(t));
                if let Some(place) = pending {
                    cells.push((id, place));
                }
                pending = None;
                styles.push(desc.style);
                inline.push(desc.inline);
                stack.push((id, desc));
                assert(styles@ =~= styles_in(after_step(t, step)));
                assert(inline@ =~= sources(after_step(t, step)));
            },
        }
        k = k + 1;
    }
    let ghost t = trace(steps@, k as int);
    if tree.boxes.len() > 0 {
        assert(box_is_built(*doc, tree, t, 0));
        if tree.boxes[0].parent.is_none() {
            let ghost before = tree;
            tree.set_root(Some(BoxId(0)));
            proof {
                assert forall|n: int| 0 <= n < t.descs.len() implies #[trigger] box_is_built(
                    *doc,
                    tree,
                    t,
                    n,
                ) by {
                    assert(box_is_built(*doc, before, t, n));
                    let kids = tree.boxes@[n].children@;
                    assert forall|x: int, y: int| 0 <= x < y < kids.len() implies comes_first(
                        tree,
                        t.descs[n].ordered,
                        #[trigger] kids[x],
                        #[trigger] kids[y],
                    ) by {
                        assert(comes_first(before, t.descs[n].ordered, kids[x], kids[y]));
                    }
                }
            }
        }
    }
    Built { tree, styles, inline, items, cells, rows }
}

proof fn lemma_same_boxes(doc: Styled, tree: LayoutTree, a: Trace, b: Trace)
    requires
        is_built(doc, tree, a),
        a.descs == b.descs,
        a.parents == b.parents,
        a.flows == b.flows,
    ensures
        is_built(doc, tree, b),
{
    assert forall|n: int| 0 <= n < b.descs.len() implies #[trigger] box_is_built(
        doc,
        tree,
        b,
        n,
    ) by {
        assert(box_is_built(doc, tree, a, n));
    }
}

/// Builds the box tree of the document whose root element is at `root`, or an empty one if it
/// has none. A document with more boxes than can be numbered gives an empty tree too.
pub fn build_layout_tree(doc: &Styled, root: Option<usize>, viewport: Viewport) -> (r: Built)
    requires
        doc.wf(),
        match root {
            Some(i) => i < doc.len(),
            None => true,
        },
    ensures
        ({
            let all = match root {
                Some(i) => doc.box_steps(i as int, 0),
                None => Seq::empty(),
            };
            let steps = if trace(all, all.len() as int).descs.len() <= u32::MAX {
                all
            } else {
                Seq::empty()
            };
            let t = trace(steps, steps.len() as int);
            &&& is_built(*doc, r.tree, t)
            &&& r.tree.root == if t.descs.len() > 0 && t.parents[0] is None {
                Some(BoxId(0))
            } else {
                None
            }
            &&& r.tree.viewport == viewport
            &&& r.styles@ == styles_in(t)
            &&& r.inline@ == sources(t)
            &&& r.items@ == t.items
            &&& r.cells@ == t.cells
            &&& r.rows@ == t.rows
        }),
{
    let mut steps: Vec<Step> = Vec::new();
    if let Some(i) = root {
        let builder = Builder::new(doc);
        builder.build_box(i, 0, &mut steps);
    }
    assert(steps@ =~= match root {
        Some(i) => doc.box_steps(i as int, 0),
        None => Seq::empty(),
    });
    if count_boxes(&steps) > u32::MAX as usize {
        steps = Vec::new();
        assert(steps@ =~= Seq::<Step>::empty());
    }
    replay(doc, &steps, viewport)
}

/// The root box is the first one.
pub proof fn the_root_is_the_first_box(steps: Seq<Step>, k: int)
    requires
        0 < k <= steps.len(),
        steps[0] is Open,
    ensures
        trace(steps, k).descs.len() > 0,
        trace(steps, k).parents.len() > 0,
        trace(steps, k).parents[0] is None,
    decreases k,
{
    if k > 1 {
        the_root_is_the_first_box(steps, k - 1);
    } else {
        assert(trace(steps, 0).stack.len() == 0);
    }
}

proof fn lemma_principal_of(doc: Styled, descs: Seq<BoxDesc>, n: int, k: int, node: NodeId)
    requires
        0 <= k < n <= descs.len() <= u32::MAX,
        descs[k].pseudo is None,
        node_of(doc, descs[k]) == Some(node),
    ensures
        principal_map(doc, descs, n).contains_key(node.key()),
        principal_map(doc, descs, n)[node.key()].0 >= k,
    decreases n,
{
    if n - 1 > k {
        lemma_principal_of(doc, descs, n - 1, k, node);
    }
}

proof fn lemma_principal_is_last(doc: Styled, descs: Seq<BoxDesc>, n: int, node: NodeId)
    requires
        0 <= n <= descs.len() <= u32::MAX,
        principal_map(doc, descs, n).contains_key(node.key()),
    ensures
        ({
            let k = principal_map(doc, descs, n)[node.key()].0;
            &&& k < n
            &&& descs[k as int].pseudo is None
            &&& node_of(doc, descs[k as int]) is Some
            &&& node_of(doc, descs[k as int]).unwrap().key() == node.key()
        }),
    decreases n,
{
    if n > 0 {
        let own = match (descs[n - 1].pseudo, node_of(doc, descs[n - 1])) {
            (None, Some(last)) => last.key() == node.key(),
            _ => false,
        };
        if !own {
            assert(principal_map(doc, descs, n - 1).contains_key(node.key()));
            assert(principal_map(doc, descs, n)[node.key()] == principal_map(
                doc,
                descs,
                n - 1,
            )[node.key()]);
            lemma_principal_is_last(doc, descs, n - 1, node);
        }
    }
}

/// A node is found by its box if one was opened for it, and only then; what is found is the
/// last of them, and never the box of a pseudo-element.
pub proof fn nodes_are_found_by_their_boxes(doc: Styled, tree: LayoutTree, t: Trace, node: NodeId)
    requires
        is_built(doc, tree, t),
        t.descs.len() <= u32::MAX,
    ensures
        match tree.principal(node) {
            Some(id) => {
                &&& id.0 < t.descs.len()
                &&& tree.at(id).pseudo is None
                &&& tree.at(id).dom_node is Some
                &&& tree.at(id).dom_node.unwrap().key() == node.key()
                &&& forall|k: int|
                    id.0 < k < t.descs.len() ==> (#[trigger] t.descs[k]).pseudo is Some || node_of(
                        doc,
                        t.descs[k],
                    ) != Some(node)
            },
            None => forall|k: int|
                0 <= k < t.descs.len() ==> (#[trigger] t.descs[k]).pseudo is Some || node_of(
                    doc,
                    t.descs[k],
                ) != Some(node),
        },
{
    let n = t.descs.len() as int;
    if tree.principal(node) is Some {
        lemma_principal_is_last(doc, t.descs, n, node);
        let id = tree.principal(node).unwrap();
        assert(box_is_built(doc, tree, t, id.0 as int));
        assert(is_made(doc, tree.boxes@[id.0 as int], t.descs[id.0 as int]));
    }
    assert forall|k: int|
        0 <= k < n && (#[trigger] t.descs[k]).pseudo is None && node_of(doc, t.descs[k]) == Some(
            node,
        ) implies tree.principal(node) is Some && tree.principal(node).unwrap().0 >= k by {
        lemma_principal_of(doc, t.descs, n, k, node);
    }
}

/// No box of a built tree makes more grid tracks along an axis than the limit, or lies at a
/// line or spans tracks beyond it.
pub proof fn built_grids_are_limited(doc: Styled, tree: LayoutTree, t: Trace, id: BoxId)
    requires
        is_built(doc, tree, t),
        tree.has(id),
    ensures
        is_limited(tree.at(id).grid@),
{
    assert(box_is_built(doc, tree, t, id.0 as int));
    grids_are_limited(grid_of(doc, t.descs[id.0 as int].style));
}

/// How many more boxes are opened than closed by the steps from `j` to before `k`.
pub open spec fn level(steps: Seq<Step>, j: int, k: int) -> int
    decreases k - j,
{
    if k <= j {
        0
    } else {
        level(steps, j, k - 1) + match steps[k - 1] {
            Step::Open(_) => 1int,
            Step::Close => -1int,
            _ => 0int,
        }
    }
}

proof fn lemma_stack_above(steps: Seq<Step>, j: int, m: int)
    requires
        0 <= j <= m <= steps.len(),
        forall|i: int| j <= i <= m ==> #[trigger] level(steps, j, i) >= 0,
    ensures
        trace(steps, m).stack.len() == trace(steps, j).stack.len() + level(steps, j, m),
        forall|i: int|
            0 <= i < trace(steps, j).stack.len() ==> #[trigger] trace(steps, m).stack[i] == trace(
                steps,
                j,
            ).stack[i],
    decreases m - j,
{
    if j < m {
        lemma_stack_above(steps, j, m - 1);
        assert(level(steps, j, m - 1) >= 0);
        assert(level(steps, j, m) >= 0);
        let before = trace(steps, m - 1);
        assert(trace(steps, m) == after_step(before, steps[m - 1]));
        assert forall|i: int| 0 <= i < trace(steps, j).stack.len() implies #[trigger] trace(
            steps,
            m,
        ).stack[i] == trace(steps, j).stack[i] by {
            assert(before.stack[i] == trace(steps, j).stack[i]);
        }
    }
}

/// A box is the child of the one that was opened before it and is not closed yet, however many
/// have been opened and closed between them. It is described by its own step.
pub proof fn boxes_are_inside_what_is_open(steps: Seq<Step>, j: int, k: int)
    requires
        0 <= j < k < steps.len() <= u32::MAX,
        steps[j] is Open,
        steps[k] is Open,
        level(steps, j + 1, k) == 0,
        forall|i: int| j + 1 <= i <= k ==> #[trigger] level(steps, j + 1, i) >= 0,
    ensures
        trace(steps, k + 1).parents.last() == Some(BoxId(trace(steps, j).descs.len() as u32)),
        trace(steps, k + 1).descs.last() == steps[k]->Open_0,
        trace(steps, k + 1).descs.len() == trace(steps, k).descs.len() + 1,
{
    lemma_stack_above(steps, j + 1, k);
    let at = trace(steps, j + 1).stack;
    let now = trace(steps, k).stack;
    let t = trace(steps, j);
    assert(trace(steps, j + 1) == after_step(t, steps[j]));
    assert(at.last() == BoxId(t.descs.len() as u32));
    assert(now[at.len() - 1] == at[at.len() - 1]);
    assert(trace(steps, k + 1) == after_step(trace(steps, k), steps[k]));
}

} // verus!
