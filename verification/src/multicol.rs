//! Multi-column layout as clipped, translated views of one continuous flow.
//!
//! A multi-column container owns one child, the *flow*, which holds all of its content
//! and is laid out once at the used column width. The flow is then cut at break
//! opportunities: between block boxes and between line boxes, never inside a line. Which
//! opportunities the columns end at is chosen from the positions before rounding; where
//! the columns are is read off the rounded ones. Both come from one walk, which lists the
//! opportunities in the order of the boxes, so that an index means the same in both.

use vstd::prelude::*;

use crate::columns::{balance, fill, sorted_opportunities, used_columns, Opportunity};
use crate::columns::{
    balanced, filled, in_range, increasing, lists_once, offsets, used_count, used_width, MAX_COLUMNS,
};
use crate::sizing::{
    at_most, first_of, least, minus, most, plus, resolve_or_zero, resolved_or_zero, within, Frame,
    MaybeSize, NodeSizes, SizingMode, Space, WideSize,
};
use crate::sizing::{box_adjustment, box_sizing_adjustment, node_sizes, resolve_node_sizes};
use crate::tree::{
    BoxId, BoxKind, BoxStyle, ColumnGap, ColumnRange, Display, Float, Layout, LayoutBox, LayoutTree,
    LineBox, MulticolConfig, MulticolContext, Overflow, Placement,
};
use crate::units::{fit, fitted, held, hold, max_i32, Size, FAR, UNITS_PER_PX};

verus! {

/// A style makes its block container a multi-column one: its column count or its column
/// width is given.
pub fn is_multicol(config: &MulticolConfig) -> (r: bool)
    ensures
        r == (config.count is Some || config.width is Some),
{
    config.count.is_some() || config.width.is_some()
}

/// The used column gap: one em for `normal`, else the length, with a percentage taken of
/// the container's content width, and no less than nothing.
pub open spec fn gap_of(config: MulticolConfig, content_width: i64, font_size: i32) -> int {
    match config.gap {
        ColumnGap::Normal => crate::units::max(font_size as int, 0),
        ColumnGap::Length(d) => crate::units::max(
            resolved_or_zero(d, Some(content_width)) as int,
            0,
        ),
    }
}

/// The used column gap.
pub fn used_gap(config: &MulticolConfig, content_width: i64, font_size: i32) -> (r: i32)
    ensures
        r == gap_of(*config, content_width, font_size),
        r >= 0,
{
    match config.gap {
        ColumnGap::Normal => max_i32(font_size, 0),
        ColumnGap::Length(d) => max_i32(resolve_or_zero(d, Some(content_width)) as i32, 0),
    }
}

/// The layout of a box in the rounded space or in the space before rounding.
pub open spec fn layout_in(b: LayoutBox, rounded: bool) -> Layout {
    if rounded {
        b.final_layout
    } else {
        b.unrounded_layout
    }
}

/// The box takes part in the flow of its parent.
pub open spec fn in_flow(b: LayoutBox) -> bool {
    b.style.placement is InFlow && b.style.float is Off
}

/// A column break may be taken inside the box: it is a block container in normal flow
/// that shows all of its content.
pub open spec fn breakable(b: LayoutBox) -> bool {
    &&& b.multicol is None
    &&& !(b.kind is Replaced) && !(b.kind is TableRoot)
    &&& b.style.display is Block
    &&& b.style.overflow_x is Visible
    &&& b.style.overflow_y is Visible
}

/// A position further down by `by`.
pub open spec fn below(y: i64, by: int) -> i64 {
    held(y + by) as i64
}

/// The tops of the first `n` lines of a box at `y`, whose content starts `inset` below.
pub open spec fn line_tops(lines: Seq<LineBox>, content_y: i64, n: int) -> Seq<i64>
    decreases n,
{
    if n <= 0 {
        Seq::empty()
    } else {
        line_tops(lines, content_y, n - 1).push(below(content_y, lines[n - 1].top as int))
    }
}

/// The tops of the lines of the box `id` at `y`.
pub open spec fn own_line_tops(tree: LayoutTree, id: int, y: i64, rounded: bool) -> Seq<i64> {
    let b = tree.boxes@[id];
    let layout = layout_in(b, rounded);
    match b.ifc {
        Some(ifc) => line_tops(
            ifc.lines@,
            below(y, layout.border.top + layout.padding.top),
            ifc.lines@.len() as int,
        ),
        None => Seq::empty(),
    }
}

/// The break opportunities inside the box `id` at `y`, in the order of the boxes: its
/// own lines, then those of its children from the `k`th on.
pub open spec fn breaks_inside(tree: LayoutTree, id: int, y: i64, rounded: bool) -> Seq<i64>
    decreases tree.boxes@.len() - id, tree.boxes@[id].children@.len() + 1,
{
    own_line_tops(tree, id, y, rounded) + breaks_of_children(tree, id, y, rounded, 0)
}

/// The break opportunities of the children of the box `id` from the `k`th on: the top of
/// each one in the flow, and those inside it where it can be broken.
pub open spec fn breaks_of_children(tree: LayoutTree, id: int, y: i64, rounded: bool, k: int) -> Seq<
    i64,
>
    decreases tree.boxes@.len() - id, tree.boxes@[id].children@.len() - k,
{
    let kids = tree.boxes@[id].children@;
    if 0 <= k < kids.len() {
        let c = kids[k].0 as int;
        let rest = breaks_of_children(tree, id, y, rounded, k + 1);
        if id < c < tree.boxes@.len() && in_flow(tree.boxes@[c]) {
            let top = below(y, layout_in(tree.boxes@[c], rounded).location.y as int);
            if breakable(tree.boxes@[c]) {
                seq![top] + breaks_inside(tree, c, top, rounded) + rest
            } else {
                seq![top] + rest
            }
        } else {
            rest
        }
    } else {
        Seq::empty()
    }
}

/// The break opportunities of a flow: its top, those inside it, and its bottom.
pub open spec fn flow_breaks(tree: LayoutTree, flow: BoxId, rounded: bool) -> Seq<i64> {
    seq![0i64] + breaks_inside(tree, flow.0 as int, 0, rounded) + seq![
        layout_in(tree.at(flow), rounded).size.height as i64,
    ]
}

/// Positions inside the range of positions.
pub open spec fn all_held(s: Seq<i64>) -> bool {
    forall|i: int| 0 <= i < s.len() ==> -FAR <= #[trigger] s[i] <= FAR
}

fn layout_of(b: &LayoutBox, rounded: bool) -> (r: Layout)
    ensures
        r == layout_in(*b, rounded),
{
    if rounded {
        b.final_layout
    } else {
        b.unrounded_layout
    }
}

fn is_in_flow(b: &LayoutBox) -> (r: bool)
    ensures
        r == in_flow(*b),
{
    matches!(b.style.placement, Placement::InFlow) && matches!(b.style.float, Float::Off)
}

fn is_breakable(b: &LayoutBox) -> (r: bool)
    ensures
        r == breakable(*b),
{
    b.multicol.is_none() && !matches!(b.kind, BoxKind::Replaced | BoxKind::TableRoot) && matches!(
        b.style.display,
        Display::Block
    ) && matches!(b.style.overflow_x, Overflow::Visible) && matches!(
        b.style.overflow_y,
        Overflow::Visible
    )
}

fn collect_lines(lines: &[LineBox], content_y: i64, out: &mut Vec<i64>)
    requires
        all_held(old(out)@),
    ensures
        final(out)@ == old(out)@ + line_tops(lines@, content_y, lines@.len() as int),
        all_held(final(out)@),
{
    let mut i: usize = 0;
    while i < lines.len()
        invariant
            i <= lines@.len(),
            out@ == old(out)@ + line_tops(lines@, content_y, i as int),
            all_held(out@),
        decreases lines.len() - i,
    {
        out.push(hold(content_y as i128 + lines[i].top as i128));
        i = i + 1;
    }
}

fn collect(tree: &LayoutTree, id: BoxId, y: i64, rounded: bool, out: &mut Vec<i64>)
    requires
        tree.wf(),
        tree.has(id),
        all_held(old(out)@),
    ensures
        final(out)@ == old(out)@ + breaks_inside(*tree, id.0 as int, y, rounded),
        all_held(final(out)@),
    decreases tree.boxes@.len() - id.0,
{
    let b: &LayoutBox = tree.box_(id);
    let layout: Layout = layout_of(b, rounded);
    assert(tree.links_ok(id.0 as int));
    match &b.ifc {
        Some(ifc) => {
            let content_y: i64 = hold(
                y as i128 + layout.border.top as i128 + layout.padding.top as i128,
            );
            collect_lines(ifc.lines.as_slice(), content_y, out);
        },
        None => {
            assert(out@ =~= out@ + own_line_tops(*tree, id.0 as int, y, rounded));
        },
    }
    let ghost base = out@;
    let ghost me = id.0 as int;
    let mut k: usize = 0;
    while k < b.children.len()
        invariant
            k <= b.children@.len(),
            tree.wf(),
            tree.has(id),
            *b == tree.at(id),
            me == id.0,
            tree.links_ok(me),
            out@ + breaks_of_children(*tree, me, y, rounded, k as int) == base
                + breaks_of_children(*tree, me, y, rounded, 0),
            all_held(out@),
        decreases b.children.len() - k,
    {
        let child: BoxId = b.children[k];
        assert(me < child.0 < tree.boxes@.len());
        let cb: &LayoutBox = tree.box_(child);
        let ghost before = out@;
        let ghost rest = breaks_of_children(*tree, me, y, rounded, k + 1);
        if is_in_flow(cb) {
            let top: i64 = hold(y as i128 + layout_of(cb, rounded).location.y as i128);
            out.push(top);
            if is_breakable(cb) {
                collect(tree, child, top, rounded, out);
                let ghost inner = breaks_inside(*tree, child.0 as int, top, rounded);
                assert(out@ + rest =~= before + (seq![top] + inner + rest));
            } else {
                assert(out@ + rest =~= before + (seq![top] + rest));
            }
        }
        k = k + 1;
    }
    proof {
        let lines = own_line_tops(*tree, me, y, rounded);
        let kids = breaks_of_children(*tree, me, y, rounded, 0);
        assert(breaks_of_children(*tree, me, y, rounded, k as int) =~= Seq::<i64>::empty());
        assert(out@ =~= base + kids);
        assert(old(out)@ + lines + kids =~= old(out)@ + (lines + kids));
    }
}

/// The positions in the flow at which a column may break, in the order of the boxes: its
/// top, the top of every box in the flow, the top of every line, and its bottom. What
/// cannot be broken (a replaced box, a table, a flex or grid container, a nested
/// multi-column container, a scroll container) adds only its own top.
pub fn break_opportunities(tree: &LayoutTree, flow: BoxId, rounded: bool) -> (r: Vec<i64>)
    requires
        tree.wf(),
        tree.has(flow),
    ensures
        r@ == flow_breaks(*tree, flow, rounded),
        all_held(r@),
{
    let mut out: Vec<i64> = Vec::new();
    out.push(0);
    let ghost start = out@;
    collect(tree, flow, 0, rounded, &mut out);
    out.push(layout_of(tree.box_(flow), rounded).size.height as i64);
    assert(out@ =~= flow_breaks(*tree, flow, rounded));
    out
}

/// The last column from `n - 1` down whose slice starts at or above `y`, or the first
/// one.
pub open spec fn column_showing(columns: Seq<ColumnRange>, y: i64, n: int) -> int
    decreases n,
{
    if n <= 1 {
        0
    } else if y >= columns[n - 1].start {
        n - 1
    } else {
        column_showing(columns, y, n - 1)
    }
}

/// A position of the flow in the container's content box: in the column that shows it.
pub open spec fn shown_at(columns: Seq<ColumnRange>, x: i64, y: i64) -> (int, int) {
    if columns.len() == 0 {
        (x as int, y as int)
    } else {
        let c = columns[column_showing(columns, y, columns.len() as int)];
        (held(x + c.x), held(y - c.start))
    }
}

/// Maps a position of the flow into the container's content box, by the column whose
/// slice shows it. What is past the last column is shown by the last one, and what is
/// above the first by the first.
pub fn map_flow_point(mc: &MulticolContext, x: i64, y: i64) -> (r: (i64, i64))
    ensures
        r.0 == shown_at(mc.columns@, x, y).0,
        r.1 == shown_at(mc.columns@, x, y).1,
{
    let n: usize = mc.columns.len();
    if n == 0 {
        return (x, y);
    }
    let mut k: usize = n;
    while k > 1 && y < mc.columns[k - 1].start
        invariant
            1 <= k <= n == mc.columns@.len(),
            column_showing(mc.columns@, y, n as int) == column_showing(mc.columns@, y, k as int),
        decreases k,
    {
        k = k - 1;
    }
    let c: ColumnRange = mc.columns[k - 1];
    (hold(x as i128 + c.x as i128), hold(y as i128 - c.start as i128))
}

/// The point lies in the column: inside its width, and inside the slice that it shows.
pub open spec fn in_column(c: ColumnRange, width: int, x: i64, y: i64) -> bool {
    c.x <= x < c.x + width && 0 <= y < c.end - c.start
}

/// `k` is the first column that the point lies in.
pub open spec fn is_first_column(columns: Seq<ColumnRange>, width: int, x: i64, y: i64, k: int) -> bool {
    &&& 0 <= k < columns.len()
    &&& in_column(columns[k], width, x, y)
    &&& forall|j: int| 0 <= j < k ==> !in_column(#[trigger] columns[j], width, x, y)
}

/// The inverse of [`map_flow_point`]: the position of the flow that the container shows
/// at a point of its content box, or `None` in a gap and past the columns.
pub fn unmap_content_point(mc: &MulticolContext, x: i64, y: i64) -> (r: Option<(i64, i64)>)
    ensures
        match r {
            Some(p) => exists|k: int| #[trigger]
                is_first_column(mc.columns@, mc.used_width as int, x, y, k) && p.0 == held(
                    x - mc.columns@[k].x,
                ) && p.1 == held(y + mc.columns@[k].start),
            None => forall|k: int|
                0 <= k < mc.columns@.len() ==> !in_column(
                    #[trigger] mc.columns@[k],
                    mc.used_width as int,
                    x,
                    y,
                ),
        },
{
    let mut k: usize = 0;
    while k < mc.columns.len()
        invariant
            k <= mc.columns@.len(),
            forall|j: int|
                0 <= j < k ==> !in_column(
                    #[trigger] mc.columns@[j],
                    mc.used_width as int,
                    x,
                    y,
                ),
        decreases mc.columns.len() - k,
    {
        let c: ColumnRange = mc.columns[k];
        if c.x <= x && (x as i128) < c.x as i128 + mc.used_width as i128 && 0 <= y && (y as i128)
            < c.end as i128 - c.start as i128 {
            assert(is_first_column(mc.columns@, mc.used_width as int, x, y, k as int));
            return Some((hold(x as i128 - c.x as i128), hold(y as i128 + c.start as i128)));
        }
        k = k + 1;
    }
    None
}

/// Columns that follow each other: each slice ends where the next starts and is not
/// negative, the columns stand apart by at least their width, and all of it is inside
/// the range of positions.
pub open spec fn columns_ok(columns: Seq<ColumnRange>, width: int) -> bool {
    &&& forall|i: int, j: int|
        0 <= i < j < columns.len() ==> (#[trigger] columns[i]).end <= (
        #[trigger] columns[j]).start && columns[i].x + width <= columns[j].x
    &&& forall|i: int|
        0 <= i < columns.len() ==> (#[trigger] columns[i]).start <= columns[i].end && -FAR
            <= columns[i].start && columns[i].end <= FAR && columns[i].end - columns[i].start <= FAR
            && 0 <= columns[i].x && columns[i].x + width <= FAR
}

/// A point inside column `k` comes from the position of the flow that the mapping puts
/// there: mapping what [`unmap_content_point`] gives leads back to the point.
pub proof fn unmapping_then_mapping_leads_back(
    columns: Seq<ColumnRange>,
    width: int,
    x: i64,
    y: i64,
    k: int,
)
    requires
        columns_ok(columns, width),
        0 <= width <= i32::MAX,
        is_first_column(columns, width, x, y, k),
    ensures
        ({
            let fx = held(x - columns[k].x) as i64;
            let fy = held(y + columns[k].start) as i64;
            shown_at(columns, fx, fy) == (x as int, y as int)
        }),
{
    let c = columns[k];
    let fy = held(y + c.start) as i64;
    assert(fy == y + c.start);
    lemma_column_showing(columns, fy, columns.len() as int, k);
}

/// A position of the flow that column `k` shows is mapped into that column, and comes
/// back from there: unmapping undoes mapping on everything that the columns show.
pub proof fn mapping_then_unmapping_leads_back(
    columns: Seq<ColumnRange>,
    width: int,
    x: i64,
    y: i64,
    k: int,
)
    requires
        columns_ok(columns, width),
        0 <= x < width <= i32::MAX,
        0 <= k < columns.len(),
        columns[k].start <= y < columns[k].end,
    ensures
        ({
            let p = shown_at(columns, x, y);
            &&& is_first_column(columns, width, p.0 as i64, p.1 as i64, k)
            &&& held(p.0 - columns[k].x) == x
            &&& held(p.1 + columns[k].start) == y
        }),
{
    lemma_column_showing(columns, y, columns.len() as int, k);
    let p = shown_at(columns, x, y);
    assert(p.0 == x + columns[k].x);
    assert(p.1 == y - columns[k].start);
    assert forall|j: int| 0 <= j < k implies !in_column(
        #[trigger] columns[j],
        width,
        p.0 as i64,
        p.1 as i64,
    ) by {
        assert(columns[j].x + width <= columns[k].x);
    }
}

proof fn lemma_column_showing(columns: Seq<ColumnRange>, y: i64, n: int, k: int)
    requires
        0 <= k < n <= columns.len(),
        columns[k].start <= y < columns[k].end,
        forall|i: int, j: int|
            0 <= i < j < columns.len() ==> (#[trigger] columns[i]).end <= (
            #[trigger] columns[j]).start,
    ensures
        column_showing(columns, y, n) == k,
    decreases n,
{
    if n > 1 && k < n - 1 {
        assert(columns[k].end <= columns[n - 1].start);
        lemma_column_showing(columns, y, n - 1, k);
    }
}

/// A length rounded to whole px, halves away from zero; the length is not negative.
pub open spec fn whole_px(v: int) -> int {
    ((2 * v + UNITS_PER_PX) / (2 * UNITS_PER_PX)) * UNITS_PER_PX
}

/// The `k`th column between two boundaries, which are indices of break opportunities.
pub open spec fn placed_column(raw: Seq<i64>, boundaries: Seq<usize>, pitch: int, k: int) -> ColumnRange {
    ColumnRange {
        x: whole_px(k * pitch) as i64,
        start: if boundaries[k] < raw.len() {
            raw[boundaries[k] as int]
        } else {
            0
        },
        end: if boundaries[k + 1] < raw.len() {
            raw[boundaries[k + 1] as int]
        } else {
            0
        },
    }
}

/// The columns between the boundaries.
pub open spec fn placed_columns(raw: Seq<i64>, boundaries: Seq<usize>, pitch: int) -> Seq<ColumnRange> {
    Seq::new(
        (boundaries.len() - 1) as nat,
        |k: int| placed_column(raw, boundaries, pitch, k),
    )
}

/// Places the columns between the boundaries. The offset of each is a whole number of px,
/// so that all of them show their content on the same grid.
pub fn place_columns(raw: &[i64], boundaries: &[usize], used_width: i32, used_gap: i32) -> (r: Vec<
    ColumnRange,
>)
    requires
        2 <= boundaries@.len() <= MAX_COLUMNS + 1,
        used_width >= 0,
        used_gap >= 0,
    ensures
        r@ == placed_columns(raw@, boundaries@, used_width + used_gap),
{
    let pitch: i64 = used_width as i64 + used_gap as i64;
    let n: usize = boundaries.len() - 1;
    let mut out: Vec<ColumnRange> = Vec::new();
    let mut k: usize = 0;
    while k < n
        invariant
            k <= n == boundaries@.len() - 1,
            n <= MAX_COLUMNS,
            pitch == used_width + used_gap,
            0 <= pitch <= 0x1_0000_0000,
            out@.len() == k,
            forall|j: int|
                0 <= j < k ==> #[trigger] out@[j] == placed_column(
                    raw@,
                    boundaries@,
                    pitch as int,
                    j,
                ),
        decreases n - k,
    {
        assert(0 <= k * pitch <= 0x100_0000_0000) by (nonlinear_arith)
            requires
                0 <= k <= 64,
                0 <= pitch <= 0x1_0000_0000,
        ;
        let at: i64 = k as i64 * pitch;
        let px: i64 = (2 * at + UNITS_PER_PX as i64) / (2 * UNITS_PER_PX as i64);
        let a: usize = boundaries[k];
        let b: usize = boundaries[k + 1];
        out.push(
            ColumnRange {
                x: px * UNITS_PER_PX as i64,
                start: if a < raw.len() {
                    raw[a]
                } else {
                    0
                },
                end: if b < raw.len() {
                    raw[b]
                } else {
                    0
                },
            },
        );
        k = k + 1;
    }
    assert(out@ =~= placed_columns(raw@, boundaries@, pitch as int));
    out
}

/// Columns are contiguous: each ends where the next starts.
pub proof fn placed_columns_are_contiguous(raw: Seq<i64>, boundaries: Seq<usize>, pitch: int, k: int)
    requires
        0 <= k,
        k + 1 < placed_columns(raw, boundaries, pitch).len(),
    ensures
        placed_columns(raw, boundaries, pitch)[k].end == placed_columns(
            raw,
            boundaries,
            pitch,
        )[k + 1].start,
{
}

/// The columns of a container in the rounded space, or the ones that it had where it was
/// never cut.
pub open spec fn resolved_columns(tree: LayoutTree, mc: MulticolContext) -> Seq<ColumnRange> {
    if mc.boundaries@.len() < 2 {
        mc.columns@
    } else {
        placed_columns(
            flow_breaks(tree, mc.flow, true),
            mc.boundaries@,
            mc.used_width + mc.used_gap,
        )
    }
}

/// The used widths and gaps of containers are not negative, and no container has more
/// boundaries than columns are allowed.
pub open spec fn contexts_ok(tree: LayoutTree) -> bool {
    forall|i: int|
        0 <= i < tree.boxes@.len() ==> match (#[trigger] tree.boxes@[i]).multicol {
            Some(mc) => mc.used_width >= 0 && mc.used_gap >= 0 && mc.boundaries@.len()
                <= MAX_COLUMNS + 1,
            None => true,
        }
}

/// The box `b` is the box `a` with other columns.
pub open spec fn only_columns_differ(a: LayoutBox, b: LayoutBox) -> bool {
    &&& b == LayoutBox { multicol: b.multicol, ..a }
    &&& match (a.multicol, b.multicol) {
        (Some(x), Some(y)) => y == MulticolContext { columns: y.columns, ..x },
        (None, None) => true,
        _ => false,
    }
}

fn columns_of(tree: &LayoutTree, i: usize) -> (r: Option<Vec<ColumnRange>>)
    requires
        tree.wf(),
        contexts_ok(*tree),
        i < tree.boxes@.len(),
    ensures
        match (r, tree.boxes@[i as int].multicol) {
            (Some(columns), Some(mc)) => mc.boundaries@.len() >= 2 && columns@
                == resolved_columns(*tree, mc),
            (None, Some(mc)) => mc.boundaries@.len() < 2,
            (None, None) => true,
            (Some(_), None) => false,
        },
{
    assert(tree.links_ok(i as int));
    match &tree.boxes[i].multicol {
        Some(mc) => if mc.boundaries.len() < 2 {
            None
        } else {
            let raw: Vec<i64> = break_opportunities(tree, mc.flow, true);
            Some(
                place_columns(
                    raw.as_slice(),
                    mc.boundaries.as_slice(),
                    mc.used_width,
                    mc.used_gap,
                ),
            )
        },
        None => None,
    }
}

/// Turns the boundaries of every multi-column container into columns, in the rounded
/// space that paint and geometry read. What the boundaries mean only a new cut changes,
/// so that running this again changes nothing.
pub fn resolve_columns(tree: &mut LayoutTree)
    requires
        old(tree).wf(),
        contexts_ok(*old(tree)),
    ensures
        final(tree).wf(),
        crate::tree::same_shape(*old(tree), *final(tree)),
        forall|i: int|
            0 <= i < old(tree).boxes@.len() ==> {
                &&& only_columns_differ(
                    #[trigger] old(tree).boxes@[i],
                    final(tree).boxes@[i],
                )
                &&& match (old(tree).boxes@[i].multicol, final(tree).boxes@[i].multicol) {
                    (Some(x), Some(y)) => y.columns@ == resolved_columns(*old(tree), x),
                    _ => true,
                }
            },
{
    let n: usize = tree.boxes.len();
    let mut all: Vec<Option<Vec<ColumnRange>>> = Vec::new();
    let mut i: usize = 0;
    while i < n
        invariant
            i <= n == tree.boxes@.len(),
            *tree == *old(tree),
            tree.wf(),
            contexts_ok(*tree),
            all@.len() == i,
            forall|k: int|
                0 <= k < i ==> match (#[trigger] all@[k], tree.boxes@[k].multicol) {
                    (Some(columns), Some(mc)) => mc.boundaries@.len() >= 2 && columns@
                        == resolved_columns(*tree, mc),
                    (None, Some(mc)) => mc.boundaries@.len() < 2,
                    (None, None) => true,
                    (Some(_), None) => false,
                },
        decreases n - i,
    {
        all.push(columns_of(tree, i));
        i = i + 1;
    }
    let ghost found = all@;
    let mut j: usize = n;
    while j > 0
        invariant
            j <= n == tree.boxes@.len(),
            n == old(tree).boxes@.len(),
            found.len() == n,
            all@ == found.take(j as int),
            tree.root == old(tree).root,
            tree.node_to_box == old(tree).node_to_box,
            tree.viewport == old(tree).viewport,
            forall|k: int|
                0 <= k < n ==> match (#[trigger] found[k], old(tree).boxes@[k].multicol) {
                    (Some(columns), Some(mc)) => mc.boundaries@.len() >= 2 && columns@
                        == resolved_columns(*old(tree), mc),
                    (None, Some(mc)) => mc.boundaries@.len() < 2,
                    (None, None) => true,
                    (Some(_), None) => false,
                },
            forall|k: int|
                0 <= k < j ==> #[trigger] tree.boxes@[k] == old(tree).boxes@[k],
            forall|k: int|
                j <= k < n ==> {
                    &&& only_columns_differ(
                        old(tree).boxes@[k],
                        #[trigger] tree.boxes@[k],
                    )
                    &&& match (old(tree).boxes@[k].multicol, tree.boxes@[k].multicol) {
                        (Some(x), Some(y)) => y.columns@ == resolved_columns(*old(tree), x),
                        _ => true,
                    }
                },
        decreases j,
    {
        let entry: Option<Option<Vec<ColumnRange>>> = all.pop();
        j = j - 1;
        assert(entry == Some(found[j as int]));
        assert(all@ =~= found.take(j as int));
        if let Some(Some(columns)) = entry {
            if let Some(mc) = &mut tree.boxes[j].multicol {
                mc.columns = columns;
            }
        }
    }
    proof {
        assert forall|k: int| 0 <= k < n implies crate::tree::same_links(
            #[trigger] old(tree).boxes@[k],
            tree.boxes@[k],
        ) by {
            assert(only_columns_differ(old(tree).boxes@[k], tree.boxes@[k]));
        }
        crate::tree::shape_decides_wf(*old(tree), *tree);
    }
}

/// What is known of a multi-column container before its content is laid out.
#[derive(Clone, Copy, PartialEq, Eq, Debug, Structural)]
pub struct MulticolFrame {
    pub frame: Frame,
    pub sizes: NodeSizes,
}

/// The frame and the size constraints of a multi-column container.
pub open spec fn multicol_frame_of(
    style: BoxStyle,
    known: MaybeSize,
    parent: MaybeSize,
    mode: SizingMode,
) -> MulticolFrame {
    let frame = Frame::of(style, parent.width);
    MulticolFrame {
        frame,
        sizes: node_sizes(
            style,
            known,
            parent,
            mode,
            box_adjustment(style, frame.padding_border()),
        ),
    }
}

/// The frame and the size constraints of a multi-column container.
pub fn multicol_frame(style: &BoxStyle, known: MaybeSize, parent: MaybeSize, mode: SizingMode) -> (r:
    MulticolFrame)
    ensures
        r == multicol_frame_of(*style, known, parent, mode),
        r.frame.small(),
{
    let frame: Frame = Frame::resolve(style, parent.width);
    let adjustment: WideSize = box_sizing_adjustment(style, frame.padding_border_size());
    MulticolFrame { frame, sizes: resolve_node_sizes(style, known, parent, mode, adjustment) }
}

/// The size of a container that its style determines in both axes: when only the size is
/// asked for, its content need not be touched.
pub fn multicol_determined_size(m: &MulticolFrame, known: MaybeSize) -> (r: Option<WideSize>)
    ensures
        match (known.or(m.sizes.size).width, known.or(m.sizes.size).height) {
            (Some(w), Some(h)) => r == Some(WideSize { width: w, height: h }),
            _ => r is None,
        },
{
    let size: MaybeSize = known.or(m.sizes.size);
    match (size.width, size.height) {
        (Some(w), Some(h)) => Some(WideSize { width: w, height: h }),
        _ => None,
    }
}

/// How many columns a container prefers when it is sized by its content.
pub open spec fn preferred_count(config: MulticolConfig) -> int {
    match config.count {
        Some(c) => if c > MAX_COLUMNS {
            MAX_COLUMNS as int
        } else {
            c as int
        },
        None => 1,
    }
}

/// The content width of a container that is sized by its content: one column at the
/// least, and the preferred number of them side by side at the most. A percentage gap is
/// taken of nothing.
pub open spec fn intrinsic_width(
    config: MulticolConfig,
    font_size: i32,
    flow_width: i64,
    space: Space,
) -> int {
    let column = match config.width {
        Some(w) => w as i64,
        None => flow_width,
    };
    if space is MinContent {
        least(column, most(flow_width, 0)) as int
    } else {
        held(
            preferred_count(config) * column + (preferred_count(config) - 1) * gap_of(
                config,
                0,
                font_size,
            ),
        )
    }
}

/// The content width of a container that is sized by its content, whose flow is
/// `flow_width` wide by itself.
pub fn measure_multicol_intrinsic(
    config: &MulticolConfig,
    font_size: i32,
    flow_width: i64,
    space: Space,
) -> (r: i64)
    ensures
        r == intrinsic_width(*config, font_size, flow_width, space),
{
    let gap: i32 = used_gap(config, 0, font_size);
    let column: i64 = match config.width {
        Some(w) => w as i64,
        None => flow_width,
    };
    if matches!(space, Space::MinContent) {
        return least(column, most(flow_width, 0));
    }
    let count: i128 = match config.count {
        Some(c) => if c as u64 > MAX_COLUMNS as u64 {
            MAX_COLUMNS as i128
        } else {
            c as i128
        },
        None => 1,
    };
    let c: i128 = column as i128;
    let g: i128 = gap as i128;
    assert(-0x1000_0000_0000_0000_0000 <= count * c <= 0x1000_0000_0000_0000_0000)
        by (nonlinear_arith)
        requires
            0 <= count <= 64,
            -0x8000_0000_0000_0000 <= c <= 0x8000_0000_0000_0000,
    ;
    assert(-0x1_0000_0000 <= (count - 1) * g <= 0x20_0000_0000) by (nonlinear_arith)
        requires
            0 <= count <= 64,
            0 <= g <= 0x7fff_ffff,
    ;
    hold(count * c + (count - 1) * g)
}

/// The border-box width of a container: the known one, else the style's, else that of
/// its content as far as there is space, within its bounds.
pub open spec fn outer_width(m: MulticolFrame, known: MaybeSize, space: Space, intrinsic: i64) -> i64 {
    within(
        match first_of(known.width, m.sizes.size.width) {
            Some(w) => w,
            None => plus(at_most(intrinsic, space.definite()), m.frame.inset().width),
        },
        m.sizes.min.width,
        m.sizes.max.width,
    )
}

/// How a container lays out its flow.
#[derive(Clone, Copy, PartialEq, Eq, Debug, Structural)]
pub struct MulticolPlan {
    pub outer_width: i64,
    pub gap: i32,
    pub count: usize,
    /// The width of a column, at which the flow is laid out.
    pub width: i32,
    /// The content height where it is definite: columns are then filled, not balanced.
    pub content_height: Option<i64>,
}

/// Plans the layout of a container's flow: used width, gap, column count and width.
/// `intrinsic` is the width of the content, which counts only where no other is given.
pub fn plan_multicol(
    m: &MulticolFrame,
    config: &MulticolConfig,
    font_size: i32,
    known: MaybeSize,
    space: Space,
    intrinsic: i64,
) -> (r: MulticolPlan)
    requires
        m.frame.small(),
    ensures
        r.outer_width == outer_width(*m, known, space, intrinsic),
        ({
            let content = most(minus(r.outer_width, m.frame.inset().width), 0);
            let room = fitted(content as int);
            &&& r.gap == gap_of(*config, content, font_size)
            &&& r.count == used_count(room, config.count, config.width, r.gap as int)
            &&& r.width == used_width(room, r.count as int, r.gap as int)
        }),
        r.content_height == match first_of(known.height, m.sizes.size.height) {
            Some(h) => Some(most(minus(h, m.frame.inset().height), 0)),
            None => None,
        },
        r.gap >= 0,
        r.width >= 0,
        1 <= r.count <= MAX_COLUMNS,
{
    let inset: WideSize = m.frame.inset_size();
    let natural: i64 = match first_of(known.width, m.sizes.size.width) {
        Some(w) => w,
        None => plus(at_most(intrinsic, space.into_option()), inset.width),
    };
    let outer: i64 = within(natural, m.sizes.min.width, m.sizes.max.width);
    let content: i64 = most(minus(outer, inset.width), 0);
    let gap: i32 = used_gap(config, content, font_size);
    let (count, width) = used_columns(fit(content as i128), config.count, config.width, gap);
    let content_height: Option<i64> = match first_of(known.height, m.sizes.size.height) {
        Some(h) => Some(most(minus(h, inset.height), 0)),
        None => None,
    };
    MulticolPlan { outer_width: outer, gap, count, width, content_height }
}

/// A container whose flow was laid out and cut.
pub struct MulticolOutput {
    pub size: Size,
    /// The boundaries of the columns, as indices of break opportunities.
    pub boundaries: Vec<usize>,
    /// The first baseline, from the border edge.
    pub baseline: Option<i64>,
}

/// The height of the columns and their boundaries: filled to a definite height, balanced
/// without one.
pub open spec fn cut_flow(ops: Seq<Opportunity>, plan: MulticolPlan) -> (int, Seq<Opportunity>) {
    match plan.content_height {
        Some(h) => (h as int, filled(ops, h as int)),
        None => balanced(ops, plan.count as int),
    }
}

/// The indices of the first boundaries, as many as columns are allowed.
pub open spec fn boundary_indices(bounds: Seq<Opportunity>) -> Seq<usize> {
    bounds.take(
        crate::units::min(bounds.len() as int, MAX_COLUMNS + 1),
    ).map_values(|op: Opportunity| op.index)
}

/// Cuts a container's flow and sizes the container: `raw` lists the break opportunities
/// of the flow before rounding, and `flow_baseline` is its first baseline.
pub fn finish_multicol(
    m: &MulticolFrame,
    plan: &MulticolPlan,
    raw: &[i64],
    flow_baseline: Option<i64>,
) -> (r: MulticolOutput)
    requires
        m.frame.small(),
        all_held(raw@),
        match plan.content_height {
            Some(h) => 0 <= h <= FAR,
            None => true,
        },
    ensures
        exists|ops: Seq<Opportunity>| #[trigger]
            lists_once(ops, raw@) && r.boundaries@ == boundary_indices(cut_flow(ops, *plan).1)
                && ({
                let height = held(cut_flow(ops, *plan).0 + m.frame.inset().height) as i64;
                r.size == (Size {
                    width: fitted(
                        most(
                            within(plan.outer_width, m.sizes.min.width, m.sizes.max.width),
                            m.frame.padding_border().width,
                        ) as int,
                    ) as i32,
                    height: fitted(
                        most(
                            within(height, m.sizes.min.height, m.sizes.max.height),
                            m.frame.padding_border().height,
                        ) as int,
                    ) as i32,
                })
            }),
        r.baseline == match flow_baseline {
            Some(b) => Some(plus(b, m.frame.content_top() as i64)),
            None => None,
        },
{
    let ops: Vec<Opportunity> = sorted_opportunities(raw);
    proof {
        lemma_sorted_in_range(ops@, raw@);
    }
    let (height, bounds) = match plan.content_height {
        Some(h) => (h, fill(ops.as_slice(), h)),
        None => balance(ops.as_slice(), plan.count),
    };
    let mut boundaries: Vec<usize> = Vec::new();
    let n: usize = if bounds.len() > MAX_COLUMNS + 1 {
        MAX_COLUMNS + 1
    } else {
        bounds.len()
    };
    let mut i: usize = 0;
    while i < n
        invariant
            i <= n <= bounds@.len(),
            boundaries@ == bounds@.take(i as int).map_values(|op: Opportunity| op.index),
        decreases n - i,
    {
        boundaries.push(bounds[i].index);
        i = i + 1;
        assert(boundaries@ =~= bounds@.take(i as int).map_values(|op: Opportunity| op.index));
    }
    let inset: WideSize = m.frame.inset_size();
    let pb: WideSize = m.frame.padding_border_size();
    let outer: i64 = hold(height as i128 + inset.height as i128);
    let size = Size {
        width: fit(
            most(within(plan.outer_width, m.sizes.min.width, m.sizes.max.width), pb.width) as i128,
        ),
        height: fit(
            most(within(outer, m.sizes.min.height, m.sizes.max.height), pb.height) as i128,
        ),
    };
    let baseline: Option<i64> = match flow_baseline {
        Some(b) => Some(plus(b, m.frame.padding.top as i64 + m.frame.border.top as i64)),
        None => None,
    };
    assert(lists_once(ops@, raw@));
    MulticolOutput { size, boundaries, baseline }
}

/// The order of break opportunities decides everything: there is one list of them.
pub proof fn lists_once_is_unique(a: Seq<Opportunity>, b: Seq<Opportunity>, raw: Seq<i64>)
    requires
        lists_once(a, raw),
        lists_once(b, raw),
    ensures
        a == b,
{
    let (pa, pb) = (offsets(a), offsets(b));
    lemma_same_set(a, b, raw);
    lemma_same_set(b, a, raw);
    lemma_increasing_unique(pa, pb);
    assert forall|k: int| 0 <= k < a.len() implies a[k] == b[k] by {
        assert(pa[k] == pb[k]);
        let (i, j) = (a[k].index as int, b[k].index as int);
        assert(raw[i] == a[k].offset);
        assert(raw[j] == b[k].offset);
        if i < j {
            assert(raw[i] != b[k].offset);
        }
        if j < i {
            assert(raw[j] != a[k].offset);
        }
    }
    assert(a =~= b);
}

proof fn lemma_same_set(a: Seq<Opportunity>, b: Seq<Opportunity>, raw: Seq<i64>)
    requires
        lists_once(a, raw),
        lists_once(b, raw),
    ensures
        forall|k: int| 0 <= k < a.len() ==> offsets(b).contains(#[trigger] offsets(a)[k]),
{
    assert forall|k: int| 0 <= k < a.len() implies offsets(b).contains(
        #[trigger] offsets(a)[k],
    ) by {
        let i = a[k].index as int;
        assert(raw[i] == a[k].offset);
        assert(offsets(b).contains(raw[i] as int));
    }
}

/// Two increasing sequences with the same members are the same.
proof fn lemma_increasing_unique(a: Seq<int>, b: Seq<int>)
    requires
        increasing(a),
        increasing(b),
        forall|k: int| 0 <= k < a.len() ==> b.contains(#[trigger] a[k]),
        forall|k: int| 0 <= k < b.len() ==> a.contains(#[trigger] b[k]),
    ensures
        a == b,
    decreases a.len(),
{
    if a.len() == 0 {
        if b.len() > 0 {
            assert(a.contains(b[0]));
        }
        assert(a =~= b);
    } else {
        assert(b.contains(a[0]));
        let (x, y) = (a.last(), b.last());
        assert(b.contains(a[a.len() - 1]));
        let i = choose|i: int| 0 <= i < b.len() && b[i] == x;
        assert(x <= y) by {
            if i < b.len() - 1 {
                assert(b[i] < b[b.len() - 1]);
            }
        }
        assert(a.contains(b[b.len() - 1]));
        let j = choose|j: int| 0 <= j < a.len() && a[j] == y;
        assert(y <= x) by {
            if j < a.len() - 1 {
                assert(a[j] < a[a.len() - 1]);
            }
        }
        let (c, d) = (a.drop_last(), b.drop_last());
        assert forall|k: int| 0 <= k < c.len() implies d.contains(#[trigger] c[k]) by {
            assert(b.contains(a[k]));
            let m = choose|m: int| 0 <= m < b.len() && b[m] == a[k];
            assert(a[k] < a[a.len() - 1]);
            assert(d[m] == c[k]);
        }
        assert forall|k: int| 0 <= k < d.len() implies c.contains(#[trigger] d[k]) by {
            assert(a.contains(b[k]));
            let m = choose|m: int| 0 <= m < a.len() && a[m] == b[k];
            assert(b[k] < b[b.len() - 1]);
            assert(c[m] == d[k]);
        }
        lemma_increasing_unique(c, d);
        assert(a =~= c.push(x));
        assert(b =~= d.push(y));
    }
}

proof fn lemma_sorted_in_range(ops: Seq<Opportunity>, raw: Seq<i64>)
    requires
        lists_once(ops, raw),
        all_held(raw),
    ensures
        in_range(offsets(ops)),
{
    assert forall|k: int| 0 <= k < offsets(ops).len() implies -FAR <= #[trigger] offsets(ops)[k]
        <= FAR by {
        assert(raw[ops[k].index as int] == ops[k].offset);
    }
}

/// The boxes of `path` lead down from the box `id`: each is a child of the one before that
/// takes part in its flow, and all but the last are blocks that show all of their content,
/// hold no columns of their own, and are neither replaced nor tables.
pub open spec fn leads_down(tree: LayoutTree, id: int, path: Seq<BoxId>) -> bool
    decreases path.len(),
{
    if path.len() == 0 {
        true
    } else {
        let b = tree.at(path[0]);
        &&& tree.boxes@[id].children@.contains(path[0])
        &&& b.style.placement == Placement::InFlow
        &&& b.style.float == Float::Off
        &&& path.len() > 1 ==> shows_through(b)
        &&& leads_down(tree, path[0].0 as int, path.skip(1))
    }
}

/// The box is a block that shows all of its content, holds no columns of its own, and is
/// neither replaced nor a table.
pub open spec fn shows_through(b: LayoutBox) -> bool {
    &&& b.style.display == Display::Block
    &&& b.style.overflow_x == Overflow::Visible
    &&& b.style.overflow_y == Overflow::Visible
    &&& b.multicol is None
    &&& b.kind != BoxKind::Replaced
    &&& b.kind != BoxKind::TableRoot
}

/// How far the last box of `path` is below the box that the path leads down from: the sum
/// of how far each is below the one before.
pub open spec fn drop_along(tree: LayoutTree, path: Seq<BoxId>, rounded: bool) -> int
    decreases path.len(),
{
    if path.len() == 0 {
        0
    } else {
        let b = tree.at(path[0]);
        (if rounded {
            b.final_layout.location.y as int
        } else {
            b.unrounded_layout.location.y as int
        }) + drop_along(tree, path.skip(1), rounded)
    }
}

/// How far the `n`th line of a box is below the box: past its border and padding, at the
/// line's own place.
pub open spec fn line_drop(b: LayoutBox, n: int, rounded: bool) -> int {
    let layout = if rounded {
        b.final_layout
    } else {
        b.unrounded_layout
    };
    layout.border.top + layout.padding.top + (match b.ifc {
        Some(ifc) => ifc.lines@[n].top as int,
        None => 0,
    })
}

/// The number of lines of a box.
pub open spec fn line_count(b: LayoutBox) -> int {
    match b.ifc {
        Some(ifc) => ifc.lines@.len() as int,
        None => 0,
    }
}

/// The box that a path from the box `id` ends at.
pub open spec fn end_of(id: int, path: Seq<BoxId>) -> int {
    if path.len() == 0 {
        id
    } else {
        path.last().0 as int
    }
}

proof fn lemma_children_breaks_follow(
    tree: LayoutTree,
    id: int,
    y: i64,
    rounded: bool,
    j: int,
    k: int,
    v: i64,
)
    requires
        0 <= j <= k <= tree.boxes@[id].children@.len(),
        breaks_of_children(tree, id, y, rounded, k).contains(v),
    ensures
        breaks_of_children(tree, id, y, rounded, j).contains(v),
    decreases k - j,
{
    if j < k {
        lemma_children_breaks_follow(tree, id, y, rounded, j + 1, k, v);
        let rest = breaks_of_children(tree, id, y, rounded, j + 1);
        let all = breaks_of_children(tree, id, y, rounded, j);
        let m = choose|m: int| 0 <= m < rest.len() && rest[m] == v;
        assert(all[all.len() - rest.len() + m] == v);
    }
}

/// What a child of the box `id` adds to the break opportunities inside it: the child's top,
/// and what is inside it where it can be broken.
proof fn lemma_child_breaks(
    tree: LayoutTree,
    id: int,
    y: i64,
    rounded: bool,
    c: BoxId,
    v: i64,
)
    requires
        tree.wf(),
        0 <= id < tree.boxes@.len(),
        tree.boxes@[id].children@.contains(c),
        in_flow(tree.at(c)),
        ({
            let top = below(y, layout_in(tree.at(c), rounded).location.y as int);
            v == top || (breakable(tree.at(c)) && breaks_inside(
                tree,
                c.0 as int,
                top,
                rounded,
            ).contains(v))
        }),
    ensures
        breaks_inside(tree, id, y, rounded).contains(v),
{
    assert(tree.links_ok(id));
    let kids = tree.boxes@[id].children@;
    let k = choose|k: int| 0 <= k < kids.len() && kids[k] == c;
    assert(id < kids[k].0 < tree.boxes@.len());
    let top = below(y, layout_in(tree.at(c), rounded).location.y as int);
    let all = breaks_of_children(tree, id, y, rounded, k);
    if v == top {
        assert(all[0] == v);
    } else {
        let inner = breaks_inside(tree, c.0 as int, top, rounded);
        let m = choose|m: int| 0 <= m < inner.len() && inner[m] == v;
        assert(all[1 + m] == v);
    }
    lemma_children_breaks_follow(tree, id, y, rounded, 0, k, v);
    let kids_breaks = breaks_of_children(tree, id, y, rounded, 0);
    let own = own_line_tops(tree, id, y, rounded);
    let m = choose|m: int| 0 <= m < kids_breaks.len() && kids_breaks[m] == v;
    assert(breaks_inside(tree, id, y, rounded)[own.len() + m] == v);
}

proof fn lemma_line_tops(lines: Seq<LineBox>, content_y: i64, n: int)
    requires
        0 <= n <= lines.len(),
    ensures
        line_tops(lines, content_y, n).len() == n,
        forall|i: int|
            0 <= i < n ==> #[trigger] line_tops(lines, content_y, n)[i] == below(
                content_y,
                lines[i].top as int,
            ),
    decreases n,
{
    if n > 0 {
        lemma_line_tops(lines, content_y, n - 1);
        let before = line_tops(lines, content_y, n - 1);
        assert forall|i: int| 0 <= i < n implies #[trigger] line_tops(lines, content_y, n)[i]
            == below(content_y, lines[i].top as int) by {
            if i < n - 1 {
                assert(line_tops(lines, content_y, n)[i] == before[i]);
            }
        }
    }
}

/// A position that is `steps` boxes away from a far one.
spec fn near(y: int, steps: int) -> bool {
    -0x8000_0000 * (0x1000_0000 - steps) <= y <= 0x8000_0000 * (0x1000_0000 - steps)
}

proof fn lemma_tops_are_breaks(
    tree: LayoutTree,
    id: int,
    y: i64,
    rounded: bool,
    path: Seq<BoxId>,
    line: Option<int>,
)
    requires
        tree.wf(),
        0 <= id < tree.boxes@.len(),
        leads_down(tree, id, path),
        path.len() < 0x1000_0000,
        near(y as int, path.len() as int),
        match line {
            Some(n) => 0 <= n < line_count(tree.boxes@[end_of(id, path)]) && (path.len() > 0
                ==> shows_through(tree.at(path.last()))),
            None => path.len() > 0,
        },
    ensures
        ({
            let at = y + drop_along(tree, path, rounded);
            breaks_inside(tree, id, y, rounded).contains(
                (match line {
                    Some(n) => at + line_drop(tree.boxes@[end_of(id, path)], n, rounded),
                    None => at,
                }) as i64,
            )
        }),
    decreases path.len(),
{
    if path.len() == 0 {
        let b = tree.boxes@[id];
        let layout = layout_in(b, rounded);
        let lines = b.ifc.unwrap().lines@;
        let content_y = below(y, layout.border.top + layout.padding.top);
        lemma_line_tops(lines, content_y, lines.len() as int);
        let n = line.unwrap();
        assert(own_line_tops(tree, id, y, rounded)[n] == content_y + lines[n].top);
        assert(breaks_inside(tree, id, y, rounded)[n] == content_y + lines[n].top);
    } else {
        let c = path[0];
        let rest = path.skip(1);
        assert(tree.links_ok(id));
        let kids = tree.boxes@[id].children@;
        let k = choose|k: int| 0 <= k < kids.len() && kids[k] == c;
        assert(id < kids[k].0 < tree.boxes@.len());
        let step = layout_in(tree.at(c), rounded).location.y as int;
        let top = below(y, step);
        assert(top == y + step);
        if path.len() == 1 {
            assert(rest.len() == 0);
            assert(drop_along(tree, rest, rounded) == 0);
        } else {
            assert(rest.last() == path.last());
        }
        if path.len() > 1 || line is Some {
            assert(end_of(c.0 as int, rest) == end_of(id, path));
            lemma_tops_are_breaks(tree, c.0 as int, top, rounded, rest, line);
        }
        let at = y + drop_along(tree, path, rounded);
        let v = (match line {
            Some(n) => at + line_drop(tree.boxes@[end_of(id, path)], n, rounded),
            None => at,
        }) as i64;
        lemma_child_breaks(tree, id, y, rounded, c, v);
    }
}

/// How far down a path leads is bounded by how many boxes it has.
pub proof fn drops_are_bounded(tree: LayoutTree, path: Seq<BoxId>, rounded: bool)
    ensures
        -0x8000_0000 * path.len() <= drop_along(tree, path, rounded) <= 0x8000_0000 * path.len(),
    decreases path.len(),
{
    if path.len() > 0 {
        drops_are_bounded(tree, path.skip(1), rounded);
    }
}

/// The top of every box of a flow is a place to break it: the sum of how far each box is
/// below the one around it, all the way from the flow.
pub proof fn a_flow_breaks_at_the_top_of_every_box(
    tree: LayoutTree,
    flow: BoxId,
    rounded: bool,
    path: Seq<BoxId>,
)
    requires
        tree.wf(),
        tree.has(flow),
        0 < path.len() < 0x1000_0000,
        leads_down(tree, flow.0 as int, path),
    ensures
        flow_breaks(tree, flow, rounded).contains(drop_along(tree, path, rounded) as i64),
{
    lemma_tops_are_breaks(tree, flow.0 as int, 0, rounded, path, None);
    let inside = breaks_inside(tree, flow.0 as int, 0, rounded);
    let v = drop_along(tree, path, rounded) as i64;
    let m = choose|m: int| 0 <= m < inside.len() && inside[m] == v;
    assert(flow_breaks(tree, flow, rounded)[1 + m] == v);
}

/// The top of every line of a flow is a place to break it, and so are the top and the
/// bottom of the flow.
pub proof fn a_flow_breaks_at_the_top_of_every_line(
    tree: LayoutTree,
    flow: BoxId,
    rounded: bool,
    path: Seq<BoxId>,
    n: int,
)
    requires
        tree.wf(),
        tree.has(flow),
        path.len() < 0x1000_0000,
        leads_down(tree, flow.0 as int, path),
        path.len() > 0 ==> shows_through(tree.at(path.last())),
        0 <= n < line_count(tree.boxes@[end_of(flow.0 as int, path)]),
    ensures
        flow_breaks(tree, flow, rounded).contains(
            (drop_along(tree, path, rounded) + line_drop(
                tree.boxes@[end_of(flow.0 as int, path)],
                n,
                rounded,
            )) as i64,
        ),
        flow_breaks(tree, flow, rounded).first() == 0,
        flow_breaks(tree, flow, rounded).last() == (if rounded {
            tree.at(flow).final_layout.size.height
        } else {
            tree.at(flow).unrounded_layout.size.height
        }),
{
    lemma_tops_are_breaks(tree, flow.0 as int, 0, rounded, path, Some(n));
    let inside = breaks_inside(tree, flow.0 as int, 0, rounded);
    let v = (drop_along(tree, path, rounded) + line_drop(
        tree.boxes@[end_of(flow.0 as int, path)],
        n,
        rounded,
    )) as i64;
    let m = choose|m: int| 0 <= m < inside.len() && inside[m] == v;
    assert(flow_breaks(tree, flow, rounded)[1 + m] == v);
}

/// The position `v` is the top of the box that `path` leads down to, or of its line `line`,
/// where the box that the path starts from is at `y`.
pub open spec fn is_top_at(
    tree: LayoutTree,
    id: int,
    y: int,
    rounded: bool,
    path: Seq<BoxId>,
    line: Option<int>,
    v: int,
) -> bool {
    &&& leads_down(tree, id, path)
    &&& match line {
        Some(n) => {
            &&& path.len() > 0 ==> shows_through(tree.at(path.last()))
            &&& 0 <= n < line_count(tree.boxes@[end_of(id, path)])
            &&& v == y + drop_along(tree, path, rounded) + line_drop(
                tree.boxes@[end_of(id, path)],
                n,
                rounded,
            )
        },
        None => path.len() > 0 && v == y + drop_along(tree, path, rounded),
    }
}

proof fn lemma_breaks_are_tops(tree: LayoutTree, id: int, y: i64, rounded: bool, v: i64) -> (r: (
    Seq<BoxId>,
    Option<int>,
))
    requires
        tree.wf(),
        0 <= id < tree.boxes@.len() <= 0x0fff_fff0,
        near(y as int, tree.boxes@.len() - id),
        breaks_inside(tree, id, y, rounded).contains(v),
    ensures
        is_top_at(tree, id, y as int, rounded, r.0, r.1, v as int),
        r.0.len() < tree.boxes@.len() - id,
    decreases tree.boxes@.len() - id, tree.boxes@[id].children@.len() + 1,
{
    let all = breaks_inside(tree, id, y, rounded);
    let own = own_line_tops(tree, id, y, rounded);
    let m = choose|m: int| 0 <= m < all.len() && all[m] == v;
    if m < own.len() {
        let b = tree.boxes@[id];
        let layout = layout_in(b, rounded);
        let lines = b.ifc.unwrap().lines@;
        let content_y = below(y, layout.border.top + layout.padding.top);
        lemma_line_tops(lines, content_y, lines.len() as int);
        assert(v == content_y + lines[m].top);
        (Seq::empty(), Some(m))
    } else {
        let kids = breaks_of_children(tree, id, y, rounded, 0);
        assert(kids[m - own.len()] == v);
        lemma_child_breaks_are_tops(tree, id, y, rounded, 0, v)
    }
}

proof fn lemma_child_breaks_are_tops(
    tree: LayoutTree,
    id: int,
    y: i64,
    rounded: bool,
    k: int,
    v: i64,
) -> (r: (Seq<BoxId>, Option<int>))
    requires
        tree.wf(),
        0 <= id < tree.boxes@.len() <= 0x0fff_fff0,
        near(y as int, tree.boxes@.len() - id),
        0 <= k <= tree.boxes@[id].children@.len(),
        breaks_of_children(tree, id, y, rounded, k).contains(v),
    ensures
        is_top_at(tree, id, y as int, rounded, r.0, r.1, v as int),
        r.0.len() < tree.boxes@.len() - id,
    decreases tree.boxes@.len() - id, tree.boxes@[id].children@.len() - k,
{
    assert(tree.links_ok(id));
    let kids = tree.boxes@[id].children@;
    let all = breaks_of_children(tree, id, y, rounded, k);
    let m = choose|m: int| 0 <= m < all.len() && all[m] == v;
    let c = kids[k];
    assert(id < kids[k].0 < tree.boxes@.len());
    let rest = breaks_of_children(tree, id, y, rounded, k + 1);
    if all.len() - rest.len() <= m {
        assert(rest[m - (all.len() - rest.len())] == v);
        lemma_child_breaks_are_tops(tree, id, y, rounded, k + 1, v)
    } else {
        let step = layout_in(tree.at(c), rounded).location.y as int;
        let top = below(y, step);
        assert(top == y + step);
        if m == 0 {
            let path = seq![c];
            assert(path.skip(1).len() == 0);
            assert(drop_along(tree, path.skip(1), rounded) == 0);
            assert(leads_down(tree, c.0 as int, path.skip(1)));
            (path, None)
        } else {
            let inner = breaks_inside(tree, c.0 as int, top, rounded);
            assert(inner[m - 1] == v);
            let (below_path, line) = lemma_breaks_are_tops(tree, c.0 as int, top, rounded, v);
            let path = seq![c] + below_path;
            assert(path.skip(1) =~= below_path);
            if below_path.len() > 0 {
                assert(path.last() == below_path.last());
            }
            assert(end_of(id, path) == end_of(c.0 as int, below_path));
            assert(breakable(tree.at(c)));
            (path, line)
        }
    }
}

/// A flow breaks nowhere else: every place to break it is its top or its bottom, or the
/// sum of how far each box is below the one around it, down to the top of a box of the flow
/// or of a line in one. Nothing inside a box is taken without the position of the boxes
/// around it.
pub proof fn a_flow_breaks_only_at_tops(
    tree: LayoutTree,
    flow: BoxId,
    rounded: bool,
    i: int,
) -> (r: (Seq<BoxId>, Option<int>))
    requires
        tree.wf(),
        tree.has(flow),
        tree.boxes@.len() <= 0x0fff_fff0,
        0 < i < flow_breaks(tree, flow, rounded).len() - 1,
    ensures
        is_top_at(
            tree,
            flow.0 as int,
            0,
            rounded,
            r.0,
            r.1,
            flow_breaks(tree, flow, rounded)[i] as int,
        ),
        r.0.len() < tree.boxes@.len(),
{
    let inside = breaks_inside(tree, flow.0 as int, 0, rounded);
    let v = flow_breaks(tree, flow, rounded)[i];
    assert(inside[i - 1] == v);
    lemma_breaks_are_tops(tree, flow.0 as int, 0, rounded, v)
}

} // verus!
