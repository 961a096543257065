//! The scrollable-overflow pass, after layout.
//!
//! What scrolling can reach in a box is its padding box and whatever its children
//! contribute. What a box contributes to its parent is its border box, and on each axis
//! that it does not clip, its own scrollable overflow. Transforms move neither.

use vstd::prelude::*;

use crate::tree::{
    same_links, same_shape, shape_decides_wf, BoxId, BoxStyle, Direction, Display, FlexDirection,
    Layout, LayoutBox, LayoutTree, Overflow,
};
use crate::units::{max, max_i64, min_i64, Rect, FAR};

verus! {

/// Whether the end of the inline axis is to the right, and that of the block axis at the
/// bottom. Overflow past the other edge is out of scrolling's reach. A right-to-left
/// direction turns the inline axis around and so does a reversed flex row; both together
/// cancel out. Only a reversed flex column turns the block axis around.
pub open spec fn ends_positive(style: BoxStyle) -> (bool, bool) {
    let ltr = style.direction is Ltr;
    if !(style.display is Flex) {
        (ltr, true)
    } else {
        match style.flex_direction {
            FlexDirection::Row => (ltr, true),
            FlexDirection::RowReverse => (!ltr, true),
            FlexDirection::Column => (ltr, true),
            FlexDirection::ColumnReverse => (ltr, false),
        }
    }
}

/// Whether the end of the inline axis is to the right, and that of the block axis at the
/// bottom.
pub fn logical_end_is_positive(style: &BoxStyle) -> (r: (bool, bool))
    ensures
        r == ends_positive(*style),
{
    let ltr: bool = matches!(style.direction, Direction::Ltr);
    if !matches!(style.display, Display::Flex) {
        return (ltr, true);
    }
    match style.flex_direction {
        FlexDirection::Row => (ltr, true),
        FlexDirection::RowReverse => (!ltr, true),
        FlexDirection::Column => (ltr, true),
        FlexDirection::ColumnReverse => (ltr, false),
    }
}

/// The border box in the box's own space.
pub open spec fn border_rect(l: Layout) -> Rect {
    Rect::between(0, 0, l.size.width as int, l.size.height as int)
}

/// The padding box in the box's own space; not negative in size.
pub open spec fn padding_rect(l: Layout) -> Rect {
    Rect::between(
        l.border.left as int,
        l.border.top as int,
        max(l.border.left as int, l.size.width - l.border.right),
        max(l.border.top as int, l.size.height - l.border.bottom),
    )
}

/// The content box in the box's own space; not negative in size.
pub open spec fn content_rect(l: Layout) -> Rect {
    Rect::between(
        l.border.left + l.padding.left,
        l.border.top + l.padding.top,
        max(l.border.left + l.padding.left, l.size.width - l.border.right - l.padding.right),
        max(l.border.top + l.padding.top, l.size.height - l.border.bottom - l.padding.bottom),
    )
}

/// The border box in the box's own space.
pub fn border_box_of(l: &Layout) -> (r: Rect)
    ensures
        r == border_rect(*l),
        r.in_range(),
{
    Rect::from_corners(0, 0, l.size.width as i128, l.size.height as i128)
}

fn larger(a: i128, b: i128) -> (r: i128)
    ensures
        r == max(a as int, b as int),
{
    if a >= b {
        a
    } else {
        b
    }
}

/// The padding box in the box's own space.
pub fn padding_box_of(l: &Layout) -> (r: Rect)
    ensures
        r == padding_rect(*l),
        r.in_range(),
{
    Rect::from_corners(
        l.border.left as i128,
        l.border.top as i128,
        larger(l.border.left as i128, l.size.width as i128 - l.border.right as i128),
        larger(l.border.top as i128, l.size.height as i128 - l.border.bottom as i128),
    )
}

/// The content box in the box's own space.
pub fn content_box_of(l: &Layout) -> (r: Rect)
    ensures
        r == content_rect(*l),
        r.in_range(),
{
    let left: i128 = l.border.left as i128 + l.padding.left as i128;
    let top: i128 = l.border.top as i128 + l.padding.top as i128;
    Rect::from_corners(
        left,
        top,
        larger(left, l.size.width as i128 - l.border.right as i128 - l.padding.right as i128),
        larger(top, l.size.height as i128 - l.border.bottom as i128 - l.padding.bottom as i128),
    )
}

/// What the children of a box add up to: the rectangle that they cover together, and how
/// far those reach whose own margin on that edge is not negative.
#[derive(Clone, Copy, PartialEq, Eq, Debug, Structural)]
pub struct Extent {
    pub covered: Rect,
    /// The furthest right edge, in a box whose inline end is to the right.
    pub right: Option<i64>,
    /// The furthest left edge, in a box whose inline end is to the left.
    pub left: Option<i64>,
    /// The furthest bottom edge, in a box whose block end is at the bottom.
    pub bottom: Option<i64>,
    /// The furthest top edge, in a box whose block end is at the top.
    pub top: Option<i64>,
}

/// No children.
pub open spec fn no_extent() -> Extent {
    Extent {
        covered: Rect { x: 0, y: 0, width: 0, height: 0 },
        right: None,
        left: None,
        bottom: None,
        top: None,
    }
}

/// The larger of two edges where there are two.
pub open spec fn further_up_spec(a: Option<i64>, b: i64) -> Option<i64> {
    match a {
        Some(v) => Some(
            if v >= b {
                v
            } else {
                b
            },
        ),
        None => Some(b),
    }
}

/// The smaller of two edges where there are two.
pub open spec fn further_down_spec(a: Option<i64>, b: i64) -> Option<i64> {
    match a {
        Some(v) => Some(
            if v <= b {
                v
            } else {
                b
            },
        ),
        None => Some(b),
    }
}

/// The extent with one more child, which contributes `c` and was laid out at `l`.
pub open spec fn extended(e: Extent, c: Rect, l: Layout, ends: (bool, bool)) -> Extent {
    Extent {
        covered: e.covered.joined(c),
        right: if ends.0 && l.margin.right >= 0 {
            further_up_spec(e.right, c.right() as i64)
        } else {
            e.right
        },
        left: if !ends.0 && l.margin.left >= 0 {
            further_down_spec(e.left, c.x)
        } else {
            e.left
        },
        bottom: if ends.1 && l.margin.bottom >= 0 {
            further_up_spec(e.bottom, c.bottom() as i64)
        } else {
            e.bottom
        },
        top: if !ends.1 && l.margin.top >= 0 {
            further_down_spec(e.top, c.y)
        } else {
            e.top
        },
    }
}

/// A child does not count: an outside list marker hangs off the start edge by design, and
/// a multi-column container shows its flow through its columns.
pub open spec fn is_left_out(parent: LayoutBox, child: LayoutBox) -> bool {
    parent.multicol is Some || child.outside_marker()
}

/// What the first `k` children of the box `i` add up to.
pub open spec fn children_extent(tree: LayoutTree, i: int, k: int) -> Extent
    decreases tree.boxes@.len() - i, k, 0nat,
{
    let b = tree.boxes@[i];
    if k <= 0 || k > b.children@.len() {
        no_extent()
    } else {
        let before = children_extent(tree, i, k - 1);
        let c = b.children@[k - 1].0 as int;
        if i < c < tree.boxes@.len() && !is_left_out(b, tree.boxes@[c]) {
            extended(
                before,
                contribution(tree, c),
                tree.boxes@[c].final_layout,
                ends_positive(b.style),
            )
        } else {
            before
        }
    }
}

/// The edge that an extent makes the scrollable area reach, where content goes past the
/// content edge: one padding further, so that the end padding shows at the end.
pub open spec fn with_end_padding(e: Extent, l: Layout, ends: (bool, bool)) -> Rect {
    let c = e.covered;
    let content = content_rect(l);
    Rect::between(
        if !ends.0 && e.left is Some && e.left.unwrap() < content.x {
            c.x - l.padding.left
        } else {
            c.x as int
        },
        if !ends.1 && e.top is Some && e.top.unwrap() < content.y {
            c.y - l.padding.top
        } else {
            c.y as int
        },
        if ends.0 && e.right is Some && e.right.unwrap() > content.right() {
            c.right() + l.padding.right
        } else {
            c.right()
        },
        if ends.1 && e.bottom is Some && e.bottom.unwrap() > content.bottom() {
            c.bottom() + l.padding.bottom
        } else {
            c.bottom()
        },
    )
}

/// What scrolling can reach, from the extent of the children.
pub open spec fn area_from(b: LayoutBox, e: Extent) -> Rect {
    let padding = padding_rect(b.final_layout);
    if e.covered.empty() {
        padding
    } else {
        padding.joined(with_end_padding(e, b.final_layout, ends_positive(b.style)))
    }
}

/// What scrolling can reach in the box `i`.
pub open spec fn scroll_area(tree: LayoutTree, i: int) -> Rect
    decreases tree.boxes@.len() - i, tree.boxes@[i].children@.len(), 1nat,
{
    let b = tree.boxes@[i];
    area_from(b, children_extent(tree, i, b.children@.len() as int))
}

/// What a box with the given scrollable area contributes to its parent, in the parent's
/// space: its border box, and its scrollable area along each axis that it does not clip.
pub open spec fn contribution_from(b: LayoutBox, area: Rect) -> Rect {
    let l = b.final_layout;
    let border = border_rect(l);
    let all = border.joined(area);
    let (x, width) = if b.style.overflow_x is Visible {
        (all.x, all.width)
    } else {
        (border.x, border.width)
    };
    let (y, height) = if b.style.overflow_y is Visible {
        (all.y, all.height)
    } else {
        (border.y, border.height)
    };
    (Rect { x, y, width, height }).moved(l.location.x as int, l.location.y as int)
}

/// What the box `i` contributes to its parent.
pub open spec fn contribution(tree: LayoutTree, i: int) -> Rect
    decreases tree.boxes@.len() - i, tree.boxes@[i].children@.len(), 2nat,
{
    contribution_from(tree.boxes@[i], scroll_area(tree, i))
}

fn further_up(a: Option<i64>, b: i64) -> (r: Option<i64>)
    ensures
        r == further_up_spec(a, b),
{
    match a {
        Some(v) => Some(max_i64(v, b)),
        None => Some(b),
    }
}

fn further_down(a: Option<i64>, b: i64) -> (r: Option<i64>)
    ensures
        r == further_down_spec(a, b),
{
    match a {
        Some(v) => Some(min_i64(v, b)),
        None => Some(b),
    }
}

fn extend(e: Extent, c: Rect, l: &Layout, ends: (bool, bool)) -> (r: Extent)
    requires
        e.covered.in_range(),
        c.in_range(),
    ensures
        r == extended(e, c, *l, ends),
        r.covered.in_range(),
{
    Extent {
        covered: e.covered.union(c),
        right: if ends.0 && l.margin.right >= 0 {
            further_up(e.right, c.x + c.width)
        } else {
            e.right
        },
        left: if !ends.0 && l.margin.left >= 0 {
            further_down(e.left, c.x)
        } else {
            e.left
        },
        bottom: if ends.1 && l.margin.bottom >= 0 {
            further_up(e.bottom, c.y + c.height)
        } else {
            e.bottom
        },
        top: if !ends.1 && l.margin.top >= 0 {
            further_down(e.top, c.y)
        } else {
            e.top
        },
    }
}

fn find_area(b: &LayoutBox, e: &Extent) -> (r: Rect)
    requires
        e.covered.in_range(),
    ensures
        r == area_from(*b, *e),
        r.in_range(),
{
    let l: Layout = b.final_layout;
    let padding: Rect = padding_box_of(&l);
    let c: Rect = e.covered;
    if c.width <= 0 || c.height <= 0 {
        return padding;
    }
    let ends: (bool, bool) = logical_end_is_positive(&b.style);
    let content: Rect = content_box_of(&l);
    let mut left: i128 = c.x as i128;
    let mut top: i128 = c.y as i128;
    let mut right: i128 = c.x as i128 + c.width as i128;
    let mut bottom: i128 = c.y as i128 + c.height as i128;
    if ends.0 {
        if let Some(v) = e.right {
            if v > content.x + content.width {
                right = right + l.padding.right as i128;
            }
        }
    } else {
        if let Some(v) = e.left {
            if v < content.x {
                left = left - l.padding.left as i128;
            }
        }
    }
    if ends.1 {
        if let Some(v) = e.bottom {
            if v > content.y + content.height {
                bottom = bottom + l.padding.bottom as i128;
            }
        }
    } else {
        if let Some(v) = e.top {
            if v < content.y {
                top = top - l.padding.top as i128;
            }
        }
    }
    padding.union(Rect::from_corners(left, top, right, bottom))
}

fn find_contribution(b: &LayoutBox, area: Rect) -> (r: Rect)
    requires
        area.in_range(),
    ensures
        r == contribution_from(*b, area),
        r.in_range(),
{
    let l: Layout = b.final_layout;
    let border: Rect = border_box_of(&l);
    let all: Rect = border.union(area);
    let (x, width) = if matches!(b.style.overflow_x, Overflow::Visible) {
        (all.x, all.width)
    } else {
        (border.x, border.width)
    };
    let (y, height) = if matches!(b.style.overflow_y, Overflow::Visible) {
        (all.y, all.height)
    } else {
        (border.y, border.height)
    };
    Rect { x, y, width, height }.translate(l.location.x as i64, l.location.y as i64)
}

fn find_extent(tree: &LayoutTree, i: usize, contributions: &[Rect]) -> (r: Extent)
    requires
        tree.wf(),
        i < tree.boxes@.len(),
        contributions@.len() == tree.boxes@.len(),
        forall|j: int|
            i < j < tree.boxes@.len() ==> #[trigger] contributions@[j] == contribution(*tree, j)
                && contributions@[j].in_range(),
    ensures
        r == children_extent(
            *tree,
            i as int,
            tree.boxes@[i as int].children@.len() as int,
        ),
        r.covered.in_range(),
{
    let b: &LayoutBox = &tree.boxes[i];
    let ends: (bool, bool) = logical_end_is_positive(&b.style);
    let mut e = Extent {
        covered: Rect { x: 0, y: 0, width: 0, height: 0 },
        right: None,
        left: None,
        bottom: None,
        top: None,
    };
    let mut k: usize = 0;
    assert(tree.links_ok(i as int));
    while k < b.children.len()
        invariant
            k <= b.children@.len(),
            i < tree.boxes@.len(),
            *b == tree.boxes@[i as int],
            tree.links_ok(i as int),
            ends == ends_positive(b.style),
            contributions@.len() == tree.boxes@.len(),
            forall|j: int|
                i < j < tree.boxes@.len() ==> #[trigger] contributions@[j] == contribution(
                    *tree,
                    j,
                ) && contributions@[j].in_range(),
            e == children_extent(*tree, i as int, k as int),
            e.covered.in_range(),
        decreases b.children.len() - k,
    {
        let child: BoxId = b.children[k];
        assert(i < child.0 < tree.boxes@.len());
        let c: usize = child.0 as usize;
        let cb: &LayoutBox = &tree.boxes[c];
        if b.multicol.is_none() && !cb.is_outside_marker() {
            e = extend(e, contributions[c], &cb.final_layout, ends);
        }
        k = k + 1;
    }
    e
}

/// Fills in what scrolling can reach in every box, from the rounded layout. Nothing else
/// of the tree changes.
pub fn resolve_scrollable_overflow(tree: &mut LayoutTree)
    requires
        old(tree).wf(),
    ensures
        final(tree).wf(),
        same_shape(*old(tree), *final(tree)),
        forall|i: int|
            0 <= i < old(tree).boxes@.len() ==> #[trigger] final(tree).boxes@[i] == (LayoutBox {
                scrollable_overflow: scroll_area(*old(tree), i),
                ..old(tree).boxes@[i]
            }),
        forall|i: int|
            0 <= i < old(tree).boxes@.len() ==> (
            #[trigger] final(tree).boxes@[i]).scrollable_overflow.in_range(),
{
    let n: usize = tree.boxes.len();
    let zero = Rect { x: 0, y: 0, width: 0, height: 0 };
    let mut contributions: Vec<Rect> = Vec::new();
    let mut areas: Vec<Rect> = Vec::new();
    let mut f: usize = 0;
    while f < n
        invariant
            f <= n,
            contributions@.len() == f,
            areas@.len() == f,
        decreases n - f,
    {
        contributions.push(zero);
        areas.push(zero);
        f = f + 1;
    }
    let mut i: usize = n;
    while i > 0
        invariant
            i <= n == tree.boxes@.len(),
            *tree == *old(tree),
            tree.wf(),
            contributions@.len() == n,
            areas@.len() == n,
            forall|j: int|
                i <= j < n ==> #[trigger] contributions@[j] == contribution(*tree, j)
                    && contributions@[j].in_range(),
            forall|j: int|
                i <= j < n ==> #[trigger] areas@[j] == scroll_area(*tree, j)
                    && areas@[j].in_range(),
        decreases i,
    {
        i = i - 1;
        let e: Extent = find_extent(tree, i, contributions.as_slice());
        let area: Rect = find_area(&tree.boxes[i], &e);
        let c: Rect = find_contribution(&tree.boxes[i], area);
        contributions.set(i, c);
        areas.set(i, area);
    }
    let mut j: usize = 0;
    while j < n
        invariant
            j <= n == tree.boxes@.len(),
            n == old(tree).boxes@.len(),
            tree.root == old(tree).root,
            tree.node_to_box == old(tree).node_to_box,
            tree.viewport == old(tree).viewport,
            areas@.len() == n,
            forall|k: int|
                0 <= k < n ==> #[trigger] areas@[k] == scroll_area(*old(tree), k)
                    && areas@[k].in_range(),
            forall|k: int|
                0 <= k < j ==> #[trigger] tree.boxes@[k] == (LayoutBox {
                    scrollable_overflow: scroll_area(*old(tree), k),
                    ..old(tree).boxes@[k]
                }) && tree.boxes@[k].scrollable_overflow.in_range(),
            forall|k: int|
                j <= k < n ==> #[trigger] tree.boxes@[k] == old(tree).boxes@[k],
        decreases n - j,
    {
        tree.boxes[j].scrollable_overflow = areas[j];
        j = j + 1;
    }
    proof {
        assert forall|k: int| 0 <= k < n implies same_links(
            #[trigger] old(tree).boxes@[k],
            tree.boxes@[k],
        ) by {
            assert(tree.boxes@[k].parent == old(tree).boxes@[k].parent);
        }
        shape_decides_wf(*old(tree), *tree);
    }
}

/// What scrolling can reach in a box covers its padding box, whatever its children do.
pub proof fn scroll_area_covers_the_padding_box(b: LayoutBox, e: Extent)
    requires
        !padding_rect(b.final_layout).empty(),
        e.covered.in_range(),
    ensures
        ({
            let (area, padding) = (area_from(b, e), padding_rect(b.final_layout));
            &&& area.x <= padding.x
            &&& area.y <= padding.y
            &&& area.right() >= padding.right()
            &&& area.bottom() >= padding.bottom()
        }),
{
}

/// A box that clips both axes contributes its border box and nothing else.
pub proof fn a_clipping_box_contributes_its_border_box(b: LayoutBox, area: Rect)
    requires
        !(b.style.overflow_x is Visible),
        !(b.style.overflow_y is Visible),
    ensures
        contribution_from(b, area) == border_rect(b.final_layout).moved(
            b.final_layout.location.x as int,
            b.final_layout.location.y as int,
        ),
{
}

/// The boxes of `path` lead down from the box `i`: each is a child of the one before, none
/// is an outside list marker or inside the columns of a multi-column container, and all but
/// the last show what goes past their edges.
pub open spec fn spills_through(tree: LayoutTree, i: int, path: Seq<BoxId>) -> bool
    decreases path.len(),
{
    let b = tree.boxes@[i];
    let p = b.final_layout.padding;
    &&& path.len() > 0
    &&& b.multicol is None
    &&& p.left >= 0 && p.right >= 0 && p.top >= 0 && p.bottom >= 0
    &&& b.children@.contains(path[0])
    &&& !tree.at(path[0]).outside_marker()
    &&& path.len() > 1 ==> {
        &&& tree.at(path[0]).style.overflow_x == Overflow::Visible
        &&& tree.at(path[0]).style.overflow_y == Overflow::Visible
        &&& spills_through(tree, path[0].0 as int, path.skip(1))
    }
}

/// Where the last box of a path is, in the space of the box that the path starts from: the
/// sum of where each is in the one before.
pub open spec fn place_along(tree: LayoutTree, path: Seq<BoxId>) -> (int, int)
    decreases path.len(),
{
    if path.len() == 0 {
        (0, 0)
    } else {
        let at = tree.at(path[0]).final_layout.location;
        let rest = place_along(tree, path.skip(1));
        (at.x + rest.0, at.y + rest.1)
    }
}

/// The rectangle reaches from `left` to `right` and from `top` to `bottom` at the least.
pub open spec fn reaches(r: Rect, left: int, top: int, right: int, bottom: int) -> bool {
    r.x <= left && r.y <= top && r.right() >= right && r.bottom() >= bottom
}

proof fn lemma_extent_in_range(tree: LayoutTree, i: int, k: int)
    requires
        tree.wf(),
        0 <= i < tree.boxes@.len(),
    ensures
        children_extent(tree, i, k).covered.in_range(),
    decreases tree.boxes@.len() - i, k,
{
    let b = tree.boxes@[i];
    if 0 < k <= b.children@.len() {
        lemma_extent_in_range(tree, i, k - 1);
        assert(contribution(tree, b.children@[k - 1].0 as int).in_range());
    }
}

proof fn lemma_extent_grows(tree: LayoutTree, i: int, j: int, k: int)
    requires
        tree.wf(),
        0 <= i < tree.boxes@.len(),
        0 <= j < k <= tree.boxes@[i].children@.len(),
        tree.boxes@[i].multicol is None,
        !tree.at(tree.boxes@[i].children@[j]).outside_marker(),
        !contribution(tree, tree.boxes@[i].children@[j].0 as int).empty(),
    ensures
        ({
            let covered = children_extent(tree, i, k).covered;
            let c = contribution(tree, tree.boxes@[i].children@[j].0 as int);
            &&& !covered.empty()
            &&& reaches(covered, c.x as int, c.y as int, c.right(), c.bottom())
        }),
    decreases k,
{
    assert(tree.links_ok(i));
    let kids = tree.boxes@[i].children@;
    assert(i < kids[k - 1].0 < tree.boxes@.len());
    lemma_extent_in_range(tree, i, k - 1);
    assert(contribution(tree, kids[k - 1].0 as int).in_range());
    if j < k - 1 {
        lemma_extent_grows(tree, i, j, k - 1);
    }
}

proof fn lemma_given(b: LayoutBox, area: Rect, left: int, top: int, right: int, bottom: int)
    requires
        area.in_range(),
        left < right,
        top < bottom,
        -FAR + 0x8000_0000 <= left && right <= FAR - 0x8000_0000,
        -FAR + 0x8000_0000 <= top && bottom <= FAR - 0x8000_0000,
        reaches(border_rect(b.final_layout), left, top, right, bottom) || (reaches(
            area,
            left,
            top,
            right,
            bottom,
        ) && b.style.overflow_x is Visible && b.style.overflow_y is Visible),
    ensures
        ({
            let given = contribution_from(b, area);
            let at = b.final_layout.location;
            &&& reaches(given, left + at.x, top + at.y, right + at.x, bottom + at.y)
            &&& !given.empty()
        }),
{
    let border = border_rect(b.final_layout);
    let all = border.joined(area);
    let at = b.final_layout.location;
    let (x, width) = if b.style.overflow_x is Visible {
        (all.x, all.width)
    } else {
        (border.x, border.width)
    };
    let (y, height) = if b.style.overflow_y is Visible {
        (all.y, all.height)
    } else {
        (border.y, border.height)
    };
    let own = Rect { x, y, width, height };
    assert(border.in_range());
    assert(reaches(own, left, top, right, bottom));
}

proof fn lemma_area_reaches(b: LayoutBox, e: Extent, left: int, top: int, right: int, bottom: int)
    requires
        e.covered.in_range(),
        !e.covered.empty(),
        reaches(e.covered, left, top, right, bottom),
        left < right,
        top < bottom,
        ({
            let p = b.final_layout.padding;
            p.left >= 0 && p.right >= 0 && p.top >= 0 && p.bottom >= 0
        }),
    ensures
        reaches(area_from(b, e), left, top, right, bottom),
{
    let padded = with_end_padding(e, b.final_layout, ends_positive(b.style));
    assert(padded.in_range());
    assert(reaches(padded, left, top, right, bottom));
    assert(padding_rect(b.final_layout).in_range());
}

/// What scrolling can reach in a box covers the border box of every box inside it whose
/// overflow the boxes in between show, where their positions add up to.
pub proof fn scrolling_reaches_what_spills_over(tree: LayoutTree, i: int, path: Seq<BoxId>)
    requires
        tree.wf(),
        0 <= i < tree.boxes@.len(),
        spills_through(tree, i, path),
        path.len() < 0x0fff_0000,
        tree.at(path.last()).final_layout.size.width > 0,
        tree.at(path.last()).final_layout.size.height > 0,
    ensures
        ({
            let at = place_along(tree, path);
            let size = tree.at(path.last()).final_layout.size;
            &&& reaches(
                scroll_area(tree, i),
                at.0,
                at.1,
                at.0 + size.width,
                at.1 + size.height,
            )
            &&& -0x8000_0000 * path.len() <= at.0 <= 0x8000_0000 * path.len()
            &&& -0x8000_0000 * path.len() <= at.1 <= 0x8000_0000 * path.len()
        }),
    decreases path.len(),
{
    assert(tree.links_ok(i));
    let kids = tree.boxes@[i].children@;
    let c = path[0];
    let j = choose|j: int| 0 <= j < kids.len() && kids[j] == c;
    assert(i < kids[j].0 < tree.boxes@.len());
    let rest = path.skip(1);
    let b = tree.at(c);
    let l = b.final_layout;
    let at = place_along(tree, path);
    let size = tree.at(path.last()).final_layout.size;
    let inner = place_along(tree, rest);
    let border = border_rect(l);
    let area = scroll_area(tree, c.0 as int);
    lemma_extent_in_range(tree, c.0 as int, b.children@.len() as int);
    lemma_extent_in_range(tree, i, kids.len() as int);
    if path.len() == 1 {
        assert(rest.len() == 0);
        assert(inner == (0int, 0int));
        assert(path.last() == c);
    } else {
        assert(rest.last() == path.last());
        scrolling_reaches_what_spills_over(tree, c.0 as int, rest);
    }
    assert(area.in_range());
    lemma_given(b, area, inner.0, inner.1, inner.0 + size.width, inner.1 + size.height);
    assert(contribution(tree, c.0 as int) == contribution_from(b, area));
    lemma_extent_grows(tree, i, j, kids.len() as int);
    lemma_area_reaches(
        tree.boxes@[i],
        children_extent(tree, i, kids.len() as int),
        at.0,
        at.1,
        at.0 + size.width,
        at.1 + size.height,
    );
}

/// Content that goes past the end of the content box makes room for the end padding too: at
/// the end of a scroll the padding shows past it.
pub proof fn the_end_padding_follows_the_content(b: LayoutBox, e: Extent, right: i64, bottom: i64)
    requires
        e.covered.in_range(),
        !e.covered.empty(),
        b.final_layout.padding.right >= 0,
        b.final_layout.padding.bottom >= 0,
        b.style.display != Display::Flex,
        b.style.direction == Direction::Ltr,
        e.right == Some(right),
        e.bottom == Some(bottom),
        e.covered.right() >= right,
        e.covered.bottom() >= bottom,
        -0x100_0000_0000 <= right <= 0x100_0000_0000,
        -0x100_0000_0000 <= bottom <= 0x100_0000_0000,
    ensures
        ({
            let l = b.final_layout;
            let area = area_from(b, e);
            &&& right > l.border.left + l.padding.left && right > l.size.width - l.border.right
                - l.padding.right ==> area.right() >= right + l.padding.right
            &&& bottom > l.border.top + l.padding.top && bottom > l.size.height - l.border.bottom
                - l.padding.bottom ==> area.bottom() >= bottom + l.padding.bottom
        }),
{
}

} // verus!
