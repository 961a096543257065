//! Corrections to positions after the layout pass and before rounding: relative offsets
//! of floats, `auto` margins of absolutely positioned boxes, and list markers outside
//! their item. Each records how far it moved a box, so that the next pass can start from
//! what the layout algorithms gave.

use vstd::prelude::*;

use crate::positioning::moved_to;
use crate::tree::{
    same_shape, shape_decides_wf, BoxId, BoxStyle, CssPosition, Direction, Float, Layout, LayoutBox,
    LayoutTree, Placement,
};
use crate::units::{fit, fitted, hold, max, Dimension, Edges, Offset, Point, Size};

verus! {

/// The gap between a marker and its item, in halves of an em.
pub const MARKER_GAP_HALVES: i32 = 1;

/// The box without the corrections of the previous pass.
pub open spec fn uncorrected(b: LayoutBox) -> LayoutBox {
    let at = b.unrounded_layout.location;
    LayoutBox {
        unrounded_layout: Layout {
            location: Offset {
                x: fitted(at.x - b.post_layout_offset.x) as i32,
                y: fitted(at.y - b.post_layout_offset.y) as i32,
            },
            ..b.unrounded_layout
        },
        post_layout_offset: Point { x: 0, y: 0 },
        ..b
    }
}

/// Every box as `f` makes it.
pub open spec fn each(boxes: Seq<LayoutBox>, f: spec_fn(int) -> LayoutBox) -> Seq<LayoutBox> {
    Seq::new(boxes.len(), f)
}

/// Takes the corrections of the previous pass back, before a layout algorithm consults
/// what it has cached. Otherwise a cached child would take the same offset again on every
/// pass.
pub fn reset_post_layout_offsets(tree: &mut LayoutTree)
    ensures
        final(tree).boxes@ == each(old(tree).boxes@, |i: int| uncorrected(old(tree).boxes@[i])),
        *final(tree) == (LayoutTree { boxes: final(tree).boxes, ..*old(tree) }),
        same_shape(*old(tree), *final(tree)),
        old(tree).wf() ==> final(tree).wf(),
{
    let n: usize = tree.boxes.len();
    let mut i: usize = 0;
    while i < n
        invariant
            i <= n == tree.boxes@.len(),
            n == old(tree).boxes@.len(),
            *tree == (LayoutTree { boxes: tree.boxes, ..*old(tree) }),
            forall|k: int|
                0 <= k < i ==> #[trigger] tree.boxes@[k] == uncorrected(old(tree).boxes@[k]),
            forall|k: int| i <= k < n ==> #[trigger] tree.boxes@[k] == old(tree).boxes@[k],
        decreases n - i,
    {
        let at: Offset = tree.boxes[i].unrounded_layout.location;
        let by: Point = tree.boxes[i].post_layout_offset;
        tree.boxes[i].unrounded_layout.location = Offset {
            x: fit(at.x as i128 - by.x as i128),
            y: fit(at.y as i128 - by.y as i128),
        };
        tree.boxes[i].post_layout_offset = Point { x: 0, y: 0 };
        i = i + 1;
    }
    assert(tree.boxes@ =~= each(old(tree).boxes@, |i: int| uncorrected(old(tree).boxes@[i])));
    proof {
        if old(tree).wf() {
            shape_decides_wf(*old(tree), *tree);
        }
    }
}

/// What is left of a length after what it must also hold, and no less than nothing.
pub open spec fn remaining(size: int, taken: int) -> int {
    max(size - taken, 0)
}

fn remaining_of(size: i32, taken: i64) -> (r: i64)
    requires
        -0x10_0000_0000 <= taken <= 0x10_0000_0000,
    ensures
        r == remaining(size as int, taken as int),
        0 <= r <= 0x20_0000_0000,
{
    let v: i64 = size as i64 - taken;
    if v >= 0 {
        v
    } else {
        0
    }
}

/// The width of a box's content box.
pub open spec fn content_width(l: Layout) -> int {
    remaining(
        l.size.width as int,
        l.padding.left + l.padding.right + l.border.left + l.border.right
            + l.scrollbar_size.width,
    )
}

/// The height of a box's content box.
pub open spec fn content_height(l: Layout) -> int {
    remaining(
        l.size.height as int,
        l.padding.top + l.padding.bottom + l.border.top + l.border.bottom
            + l.scrollbar_size.height,
    )
}

/// The size and the direction that the relative offsets of the box `i` go by: those of its
/// parent's content box, or of the viewport.
pub open spec fn relative_basis(tree: LayoutTree, i: int) -> (int, int, Direction) {
    match tree.boxes@[i].parent {
        Some(p) => (
            content_width(tree.at(p).unrounded_layout),
            content_height(tree.at(p).unrounded_layout),
            tree.at(p).style.direction,
        ),
        None => (tree.viewport.width as int, tree.viewport.height as int, Direction::Ltr),
    }
}

/// The offset that a pair of insets gives: the first wins, the second counts backwards.
pub open spec fn inset_offset(first: Option<int>, second: Option<int>) -> int {
    match (first, second) {
        (Some(v), _) => v,
        (None, Some(v)) => -v,
        (None, None) => 0,
    }
}

/// The offset of a pair of insets where the second wins.
pub open spec fn reverse_inset_offset(first: Option<int>, second: Option<int>) -> int {
    match (first, second) {
        (_, Some(v)) => -v,
        (Some(v), None) => v,
        (None, None) => 0,
    }
}

/// How far `position: relative` moves the box `i`, if it floats.
pub open spec fn relative_float_offset(tree: LayoutTree, i: int) -> (int, int) {
    let b = tree.boxes@[i];
    if b.style.float is Off || !(b.position is Relative) {
        (0, 0)
    } else {
        let (w, h, direction) = relative_basis(tree, i);
        let left = b.style.inset.left.over(w);
        let right = b.style.inset.right.over(w);
        let top = b.style.inset.top.over(h);
        let bottom = b.style.inset.bottom.over(h);
        (
            if direction is Rtl {
                reverse_inset_offset(left, right)
            } else {
                inset_offset(left, right)
            },
            inset_offset(top, bottom),
        )
    }
}

fn offset_of(first: Option<i32>, second: Option<i32>) -> (r: i64)
    ensures
        r == inset_offset(crate::units::opt(first), crate::units::opt(second)),
        -0x8000_0000 <= r <= 0x8000_0000,
{
    match (first, second) {
        (Some(v), _) => v as i64,
        (None, Some(v)) => -(v as i64),
        (None, None) => 0,
    }
}

fn reverse_offset_of(first: Option<i32>, second: Option<i32>) -> (r: i64)
    ensures
        r == reverse_inset_offset(crate::units::opt(first), crate::units::opt(second)),
        -0x8000_0000 <= r <= 0x8000_0000,
{
    match (first, second) {
        (_, Some(v)) => -(v as i64),
        (Some(v), None) => v as i64,
        (None, None) => 0,
    }
}

fn find_relative_float_offset(tree: &LayoutTree, i: usize) -> (r: (i64, i64))
    requires
        tree.wf(),
        i < tree.boxes@.len(),
    ensures
        r.0 == relative_float_offset(*tree, i as int).0,
        r.1 == relative_float_offset(*tree, i as int).1,
        -0x8000_0000 <= r.0 <= 0x8000_0000,
        -0x8000_0000 <= r.1 <= 0x8000_0000,
{
    assert(tree.links_ok(i as int));
    let b: &LayoutBox = &tree.boxes[i];
    if b.style.float == Float::Off || b.position != CssPosition::Relative {
        return (0, 0);
    }
    let basis: (i64, i64, Direction) = match b.parent {
        Some(p) => {
            let parent: &LayoutBox = tree.box_(p);
            let l: Layout = parent.unrounded_layout;
            (
                remaining_of(
                    l.size.width,
                    l.padding.left as i64 + l.padding.right as i64 + l.border.left as i64
                        + l.border.right as i64 + l.scrollbar_size.width as i64,
                ),
                remaining_of(
                    l.size.height,
                    l.padding.top as i64 + l.padding.bottom as i64 + l.border.top as i64
                        + l.border.bottom as i64 + l.scrollbar_size.height as i64,
                ),
                parent.style.direction,
            )
        },
        None => (tree.viewport.width as i64, tree.viewport.height as i64, Direction::Ltr),
    };
    let left: Option<i32> = b.style.inset.left.resolve(basis.0);
    let right: Option<i32> = b.style.inset.right.resolve(basis.0);
    let top: Option<i32> = b.style.inset.top.resolve(basis.1);
    let bottom: Option<i32> = b.style.inset.bottom.resolve(basis.1);
    let x: i64 = if basis.2 == Direction::Rtl {
        reverse_offset_of(left, right)
    } else {
        offset_of(left, right)
    };
    (x, offset_of(top, bottom))
}

/// The box moved by `(dx, dy)` before rounding, with that as its only correction.
pub open spec fn corrected_by(b: LayoutBox, by: (int, int)) -> LayoutBox {
    let at = b.unrounded_layout.location;
    let x = fitted(at.x + by.0);
    let y = fitted(at.y + by.1);
    LayoutBox {
        unrounded_layout: Layout {
            location: Offset { x: x as i32, y: y as i32 },
            ..b.unrounded_layout
        },
        post_layout_offset: Point { x: (x - at.x) as i64, y: (y - at.y) as i64 },
        ..b
    }
}

/// Moves relatively positioned floats by their insets. Relative positioning is a visual
/// offset: it comes after the flow has been laid out and does not influence it.
pub fn apply_relative_float_offsets(tree: &mut LayoutTree)
    requires
        old(tree).wf(),
    ensures
        final(tree).boxes@ == each(
            old(tree).boxes@,
            |i: int|
                corrected_by(old(tree).boxes@[i], relative_float_offset(*old(tree), i)),
        ),
        *final(tree) == (LayoutTree { boxes: final(tree).boxes, ..*old(tree) }),
        same_shape(*old(tree), *final(tree)),
        final(tree).wf(),
{
    let n: usize = tree.boxes.len();
    let mut offsets: Vec<(i64, i64)> = Vec::new();
    let mut i: usize = 0;
    while i < n
        invariant
            i <= n == tree.boxes@.len(),
            *tree == *old(tree),
            tree.wf(),
            offsets@.len() == i,
            forall|k: int|
                0 <= k < i ==> ({
                    let o = #[trigger] offsets@[k];
                    &&& o.0 == relative_float_offset(*old(tree), k).0
                    &&& o.1 == relative_float_offset(*old(tree), k).1
                    &&& -0x8000_0000 <= o.0 <= 0x8000_0000
                    &&& -0x8000_0000 <= o.1 <= 0x8000_0000
                }),
        decreases n - i,
    {
        let o: (i64, i64) = find_relative_float_offset(tree, i);
        offsets.push(o);
        i = i + 1;
    }
    let mut j: usize = 0;
    while j < n
        invariant
            j <= n == tree.boxes@.len(),
            n == old(tree).boxes@.len(),
            offsets@.len() == n,
            *tree == (LayoutTree { boxes: tree.boxes, ..*old(tree) }),
            forall|k: int|
                0 <= k < n ==> ({
                    let o = #[trigger] offsets@[k];
                    &&& o.0 == relative_float_offset(*old(tree), k).0
                    &&& o.1 == relative_float_offset(*old(tree), k).1
                    &&& -0x8000_0000 <= o.0 <= 0x8000_0000
                    &&& -0x8000_0000 <= o.1 <= 0x8000_0000
                }),
            forall|k: int|
                0 <= k < j ==> #[trigger] tree.boxes@[k] == corrected_by(
                    old(tree).boxes@[k],
                    relative_float_offset(*old(tree), k),
                ),
            forall|k: int| j <= k < n ==> #[trigger] tree.boxes@[k] == old(tree).boxes@[k],
        decreases n - j,
    {
        let at: Offset = tree.boxes[j].unrounded_layout.location;
        let by: (i64, i64) = offsets[j];
        let x: i32 = fit(at.x as i128 + by.0 as i128);
        let y: i32 = fit(at.y as i128 + by.1 as i128);
        tree.boxes[j].unrounded_layout.location = Offset { x, y };
        tree.boxes[j].post_layout_offset = Point {
            x: x as i64 - at.x as i64,
            y: y as i64 - at.y as i64,
        };
        j = j + 1;
    }
    assert(tree.boxes@ =~= each(
        old(tree).boxes@,
        |i: int| corrected_by(old(tree).boxes@[i], relative_float_offset(*old(tree), i)),
    ));
    proof {
        shape_decides_wf(*old(tree), *tree);
    }
}

/// The pair of margins of an axis, given which of them are `auto`, the others' lengths and
/// the free space: one `auto` margin takes all of it, two share it. Where there is too
/// little space, the end margin takes it (the start margin where `reverse`).
pub open spec fn auto_margin_pair(
    start_auto: bool,
    end_auto: bool,
    fixed_start: int,
    fixed_end: int,
    free: int,
    reverse: bool,
) -> (int, int) {
    if start_auto && end_auto {
        if free >= 0 {
            (free / 2, free / 2)
        } else if reverse {
            (free, 0)
        } else {
            (0, free)
        }
    } else if start_auto {
        (free, fixed_end)
    } else if end_auto {
        (fixed_start, free)
    } else {
        (fixed_start, fixed_end)
    }
}

fn resolve_absolute_auto_margin_pair(
    start_auto: bool,
    end_auto: bool,
    fixed_start: i64,
    fixed_end: i64,
    free: i64,
    reverse: bool,
) -> (r: (i64, i64))
    ensures
        (r.0 as int, r.1 as int) == auto_margin_pair(
            start_auto,
            end_auto,
            fixed_start as int,
            fixed_end as int,
            free as int,
            reverse,
        ),
{
    if start_auto && end_auto {
        if free >= 0 {
            (free / 2, free / 2)
        } else if reverse {
            (free, 0)
        } else {
            (0, free)
        }
    } else if start_auto {
        (free, fixed_end)
    } else if end_auto {
        (fixed_start, free)
    } else {
        (fixed_start, fixed_end)
    }
}

/// One axis of an absolutely positioned box in its containing block's padding box.
pub struct MarginAxis {
    pub size_is_auto: bool,
    pub start_inset: Option<i32>,
    pub end_inset: Option<i32>,
    pub start_margin: Dimension,
    pub end_margin: Dimension,
    /// The size of the box.
    pub size: i32,
    /// The size of the padding box.
    pub area_size: i64,
    /// Where the padding box starts.
    pub area_offset: i32,
    /// What percentage margins are taken of.
    pub percent_basis: i64,
    /// The axis runs from its far edge.
    pub rtl: bool,
}

impl MarginAxis {
    /// The insets and the size of the axis are all given and a margin is `auto`.
    pub open spec fn applies(self) -> bool {
        &&& !self.size_is_auto
        &&& self.start_inset is Some
        &&& self.end_inset is Some
        &&& (self.start_margin is Auto || self.end_margin is Auto)
    }

    /// The length of the start margin, zero where it is `auto`.
    pub open spec fn fixed_start(self) -> int {
        self.start_margin.or_zero(Some(self.percent_basis as int))
    }

    /// The length of the end margin, zero where it is `auto`.
    pub open spec fn fixed_end(self) -> int {
        self.end_margin.or_zero(Some(self.percent_basis as int))
    }

    /// What is left of the area between insets, size and given margins.
    pub open spec fn free(self) -> int {
        self.area_size - self.start_inset.unwrap() - self.end_inset.unwrap() - self.size
            - self.fixed_start() - self.fixed_end()
    }

    /// The used margins.
    pub open spec fn margins(self) -> (int, int) {
        auto_margin_pair(
            self.start_margin is Auto,
            self.end_margin is Auto,
            self.fixed_start(),
            self.fixed_end(),
            self.free(),
            self.rtl,
        )
    }

    /// Where the box goes.
    pub open spec fn target(self) -> int {
        if self.rtl {
            self.area_offset + self.area_size - self.size - self.end_inset.unwrap()
                - self.margins().1
        } else {
            self.area_offset + self.start_inset.unwrap() + self.margins().0
        }
    }
}

/// Insets, margins and size of an axis whose `auto` margins are resolved fill its area, up
/// to the unit that an odd number of them leaves when two margins share it.
pub proof fn auto_margins_use_up_the_free_space(axis: MarginAxis)
    requires
        axis.applies(),
    ensures
        ({
            let used = axis.start_inset.unwrap() + axis.margins().0 + axis.size
                + axis.margins().1 + axis.end_inset.unwrap();
            &&& axis.area_size - 1 <= used <= axis.area_size
            &&& !(axis.start_margin is Auto && axis.end_margin is Auto && axis.free() >= 0) ==> used
                == axis.area_size
        }),
        axis.start_margin is Auto && axis.end_margin is Auto && axis.free() >= 0
            ==> axis.margins().0 == axis.margins().1,
{
}

/// The used margins of an axis and where the box goes, if `auto` margins are to be
/// resolved in it.
fn resolve_absolute_auto_margin_axis(axis: &MarginAxis) -> (r: Option<(i64, i64, i64)>)
    requires
        0 <= axis.area_size <= 0x20_0000_0000,
    ensures
        match r {
            Some(v) => axis.applies() && (v.0 as int, v.1 as int) == axis.margins() && v.2
                == axis.target(),
            None => !axis.applies(),
        },
{
    if axis.size_is_auto {
        return None;
    }
    let (start, end): (i32, i32) = match (axis.start_inset, axis.end_inset) {
        (Some(s), Some(e)) => (s, e),
        _ => {
            return None;
        },
    };
    let start_auto: bool = axis.start_margin.is_auto();
    let end_auto: bool = axis.end_margin.is_auto();
    if !(start_auto || end_auto) {
        return None;
    }
    let fixed_start: i32 = match axis.start_margin.resolve(axis.percent_basis) {
        Some(v) => v,
        None => 0,
    };
    let fixed_end: i32 = match axis.end_margin.resolve(axis.percent_basis) {
        Some(v) => v,
        None => 0,
    };
    let free: i64 = axis.area_size - start as i64 - end as i64 - axis.size as i64
        - fixed_start as i64 - fixed_end as i64;
    let margins: (i64, i64) = resolve_absolute_auto_margin_pair(
        start_auto,
        end_auto,
        fixed_start as i64,
        fixed_end as i64,
        free,
        axis.rtl,
    );
    let target: i64 = if axis.rtl {
        axis.area_offset as i64 + axis.area_size - axis.size as i64 - end as i64 - margins.1
    } else {
        axis.area_offset as i64 + start as i64 + margins.0
    };
    Some((margins.0, margins.1, target))
}

/// An optional integer as a length.
pub open spec fn as_length(v: Option<int>) -> Option<i32> {
    match v {
        Some(x) => Some(x as i32),
        None => None,
    }
}

/// The size of the padding box that the box `i` is positioned in.
pub open spec fn area_size(l: Layout) -> (int, int) {
    (
        remaining(
            l.size.width as int,
            l.border.left + l.border.right + l.scrollbar_size.width,
        ),
        remaining(
            l.size.height as int,
            l.border.top + l.border.bottom + l.scrollbar_size.height,
        ),
    )
}

/// The inline axis of a box of the style `style` and the size `size` in a containing block
/// of the layout `l`.
pub open spec fn inline_axis(style: BoxStyle, size: Size, l: Layout, rtl: bool) -> MarginAxis {
    let w = area_size(l).0;
    MarginAxis {
        size_is_auto: style.size.width is Auto,
        start_inset: as_length(style.inset.left.over(w)),
        end_inset: as_length(style.inset.right.over(w)),
        start_margin: style.margin.left,
        end_margin: style.margin.right,
        size: size.width,
        area_size: w as i64,
        area_offset: l.border.left,
        percent_basis: w as i64,
        rtl,
    }
}

/// The block axis. Percentage margins go by the width of the area in this axis too.
pub open spec fn block_axis(style: BoxStyle, size: Size, l: Layout) -> MarginAxis {
    let (w, h) = area_size(l);
    MarginAxis {
        size_is_auto: style.size.height is Auto,
        start_inset: as_length(style.inset.top.over(h)),
        end_inset: as_length(style.inset.bottom.over(h)),
        start_margin: style.margin.top,
        end_margin: style.margin.bottom,
        size: size.height,
        area_size: h as i64,
        area_offset: l.border.top,
        percent_basis: w as i64,
        rtl: false,
    }
}

/// Where an absolutely positioned box goes and the margins that it uses.
pub open spec fn margin_correction(b: LayoutBox, parent: LayoutBox) -> (Offset, Edges) {
    let l = parent.unrounded_layout;
    let x = inline_axis(
        b.style,
        b.unrounded_layout.size,
        l,
        parent.style.direction is Rtl,
    );
    let y = block_axis(b.style, b.unrounded_layout.size, l);
    let at = b.unrounded_layout.location;
    let margin = b.unrounded_layout.margin;
    (
        Offset {
            x: if x.applies() {
                fitted(x.target()) as i32
            } else {
                at.x
            },
            y: if y.applies() {
                fitted(y.target()) as i32
            } else {
                at.y
            },
        },
        Edges {
            left: if x.applies() {
                fitted(x.margins().0) as i32
            } else {
                margin.left
            },
            right: if x.applies() {
                fitted(x.margins().1) as i32
            } else {
                margin.right
            },
            top: if y.applies() {
                fitted(y.margins().0) as i32
            } else {
                margin.top
            },
            bottom: if y.applies() {
                fitted(y.margins().1) as i32
            } else {
                margin.bottom
            },
        },
    )
}

/// The box `i` with the `auto` margins of absolute positioning resolved.
pub open spec fn with_auto_margins(tree: LayoutTree, i: int) -> LayoutBox {
    let b = tree.boxes@[i];
    match b.parent {
        Some(p) => if b.style.placement is OutOfFlow {
            let (to, margin) = margin_correction(b, tree.at(p));
            let m = moved_to(b, to);
            LayoutBox { unrounded_layout: Layout { margin, ..m.unrounded_layout }, ..m }
        } else {
            b
        },
        None => b,
    }
}

fn find_margin_correction(b: &LayoutBox, parent: &LayoutBox) -> (r: (Offset, Edges))
    ensures
        r == margin_correction(*b, *parent),
{
    let l: Layout = parent.unrounded_layout;
    let width: i64 = remaining_of(
        l.size.width,
        l.border.left as i64 + l.border.right as i64 + l.scrollbar_size.width as i64,
    );
    let height: i64 = remaining_of(
        l.size.height,
        l.border.top as i64 + l.border.bottom as i64 + l.scrollbar_size.height as i64,
    );
    let style: BoxStyle = b.style;
    let size: Size = b.unrounded_layout.size;
    let x = MarginAxis {
        size_is_auto: style.size.width.is_auto(),
        start_inset: style.inset.left.resolve(width),
        end_inset: style.inset.right.resolve(width),
        start_margin: style.margin.left,
        end_margin: style.margin.right,
        size: size.width,
        area_size: width,
        area_offset: l.border.left,
        percent_basis: width,
        rtl: parent.style.direction == Direction::Rtl,
    };
    let y = MarginAxis {
        size_is_auto: style.size.height.is_auto(),
        start_inset: style.inset.top.resolve(height),
        end_inset: style.inset.bottom.resolve(height),
        start_margin: style.margin.top,
        end_margin: style.margin.bottom,
        size: size.height,
        area_size: height,
        area_offset: l.border.top,
        percent_basis: width,
        rtl: false,
    };
    assert(x == inline_axis(style, size, l, parent.style.direction is Rtl));
    assert(y == block_axis(style, size, l));
    let mut to: Offset = b.unrounded_layout.location;
    let mut margin: Edges = b.unrounded_layout.margin;
    if let Some((start, end, target)) = resolve_absolute_auto_margin_axis(&x) {
        margin.left = fit(start as i128);
        margin.right = fit(end as i128);
        to.x = fit(target as i128);
    }
    if let Some((start, end, target)) = resolve_absolute_auto_margin_axis(&y) {
        margin.top = fit(start as i128);
        margin.bottom = fit(end as i128);
        to.y = fit(target as i128);
    }
    (to, margin)
}

/// Resolves the `auto` margins of absolutely positioned boxes whose opposing insets and
/// size are given: the margins take up the space that is left in the padding box of the
/// containing block.
pub fn apply_absolute_auto_margins(tree: &mut LayoutTree)
    requires
        old(tree).wf(),
    ensures
        final(tree).boxes@ == each(old(tree).boxes@, |i: int| with_auto_margins(*old(tree), i)),
        *final(tree) == (LayoutTree { boxes: final(tree).boxes, ..*old(tree) }),
        same_shape(*old(tree), *final(tree)),
        final(tree).wf(),
{
    let n: usize = tree.boxes.len();
    let mut found: Vec<Option<(Offset, Edges)>> = Vec::new();
    let mut i: usize = 0;
    while i < n
        invariant
            i <= n == tree.boxes@.len(),
            *tree == *old(tree),
            tree.wf(),
            found@.len() == i,
            forall|k: int|
                0 <= k < i ==> #[trigger] found@[k] == correction_at(*old(tree), k),
        decreases n - i,
    {
        assert(tree.links_ok(i as int));
        let b: &LayoutBox = &tree.boxes[i];
        let c: Option<(Offset, Edges)> = match b.parent {
            Some(p) => if b.style.placement == Placement::OutOfFlow {
                Some(find_margin_correction(b, tree.box_(p)))
            } else {
                None
            },
            None => None,
        };
        found.push(c);
        i = i + 1;
    }
    let mut j: usize = 0;
    while j < n
        invariant
            j <= n == tree.boxes@.len(),
            n == old(tree).boxes@.len(),
            found@.len() == n,
            *tree == (LayoutTree { boxes: tree.boxes, ..*old(tree) }),
            forall|k: int|
                0 <= k < n ==> #[trigger] found@[k] == correction_at(*old(tree), k),
            forall|k: int|
                0 <= k < j ==> #[trigger] tree.boxes@[k] == with_auto_margins(*old(tree), k),
            forall|k: int| j <= k < n ==> #[trigger] tree.boxes@[k] == old(tree).boxes@[k],
        decreases n - j,
    {
        if let Some((to, margin)) = found[j] {
            let at: Offset = tree.boxes[j].unrounded_layout.location;
            let by: Point = tree.boxes[j].post_layout_offset;
            tree.boxes[j].unrounded_layout.location = to;
            tree.boxes[j].unrounded_layout.margin = margin;
            tree.boxes[j].post_layout_offset = Point {
                x: hold(by.x as i128 + (to.x as i128 - at.x as i128)),
                y: hold(by.y as i128 + (to.y as i128 - at.y as i128)),
            };
        }
        j = j + 1;
    }
    assert(tree.boxes@ =~= each(old(tree).boxes@, |i: int| with_auto_margins(*old(tree), i)));
    proof {
        shape_decides_wf(*old(tree), *tree);
    }
}

/// Where the box `i` goes and the margins that it uses, if it is absolutely positioned.
spec fn correction_at(tree: LayoutTree, i: int) -> Option<(Offset, Edges)> {
    let b = tree.boxes@[i];
    match b.parent {
        Some(p) => if b.style.placement is OutOfFlow {
            Some(margin_correction(b, tree.at(p)))
        } else {
            None
        },
        None => None,
    }
}

/// Taking corrections back gives the box that they were made to, whatever they were: the
/// record of how far a box was moved is exact.
pub proof fn corrections_can_be_taken_back(b: LayoutBox, by: (int, int), to: Offset)
    ensures
        ({
            let moved = moved_to(corrected_by(b, by), to);
            &&& uncorrected(moved).unrounded_layout == b.unrounded_layout
            &&& uncorrected(moved) == (LayoutBox {
                post_layout_offset: Point { x: 0, y: 0 },
                ..b
            })
        }),
{
    let c = corrected_by(b, by);
    let m = moved_to(c, to);
    assert(m.post_layout_offset.x == to.x - b.unrounded_layout.location.x);
    assert(m.post_layout_offset.y == to.y - b.unrounded_layout.location.y);
}

/// A marker of the size `size` beside the content box of its item: above it by nothing,
/// before it by half an em.
pub open spec fn marker_location(item: Layout, size: Size, font_size: int) -> (int, int) {
    (
        item.border.left + item.padding.left - size.width - MARKER_GAP_HALVES * font_size / 2,
        item.border.top + item.padding.top,
    )
}

/// The marker `i` of the size `size`, placed.
pub open spec fn placed_marker(tree: LayoutTree, i: int, size: Size) -> LayoutBox {
    let b = tree.boxes@[i];
    match b.parent {
        Some(item) => if b.outside_marker() {
            let at = marker_location(
                tree.at(item).unrounded_layout,
                size,
                b.font_size as int,
            );
            LayoutBox {
                unrounded_layout: Layout {
                    size,
                    location: Offset { x: fitted(at.0) as i32, y: fitted(at.1) as i32 },
                    ..b.unrounded_layout
                },
                ..b
            }
        } else {
            b
        },
        None => b,
    }
}

/// Places a list marker outside its item, once it has been measured: it is as wide as its
/// text, and ends half an em before the item's content box. Leaves any other box alone.
pub fn place_marker(tree: &mut LayoutTree, id: BoxId, size: Size)
    requires
        old(tree).wf(),
        old(tree).has(id),
    ensures
        final(tree).boxes@ == old(tree).boxes@.update(
            id.0 as int,
            placed_marker(*old(tree), id.0 as int, size),
        ),
        *final(tree) == (LayoutTree { boxes: final(tree).boxes, ..*old(tree) }),
        same_shape(*old(tree), *final(tree)),
        final(tree).wf(),
{
    assert(tree.links_ok(id.0 as int));
    let i: usize = id.0 as usize;
    if tree.box_(id).is_outside_marker() {
        if let Some(item) = tree.box_(id).parent {
            let l: Layout = tree.box_(item).unrounded_layout;
            let gap: i64 = halved(MARKER_GAP_HALVES as i64 * tree.boxes[i].font_size as i64);
            let x: i64 = l.border.left as i64 + l.padding.left as i64 - size.width as i64 - gap;
            let y: i64 = l.border.top as i64 + l.padding.top as i64;
            tree.boxes[i].unrounded_layout.size = size;
            tree.boxes[i].unrounded_layout.location = Offset {
                x: fit(x as i128),
                y: fit(y as i128),
            };
        }
    }
    assert(tree.boxes@ =~= old(tree).boxes@.update(
        i as int,
        placed_marker(*old(tree), i as int, size),
    ));
    proof {
        shape_decides_wf(*old(tree), *tree);
    }
}

/// Half of a number, rounded down.
fn halved(v: i64) -> (r: i64)
    ensures
        r == v as int / 2,
{
    if v >= 0 {
        v / 2
    } else {
        let r: i64 = v % 2;
        if r == 0 {
            v / 2
        } else {
            (v - r) / 2 - 1
        }
    }
}

/// The outside markers of the tree, in build order.
pub open spec fn outside_markers(tree: LayoutTree, n: int) -> Seq<BoxId>
    decreases n,
{
    if n <= 0 {
        Seq::empty()
    } else if tree.boxes@[n - 1].outside_marker() && tree.boxes@[n - 1].parent is Some {
        outside_markers(tree, n - 1).push(BoxId((n - 1) as u32))
    } else {
        outside_markers(tree, n - 1)
    }
}

/// The markers that [`place_marker`] is to place, in build order. The layout pass does not
/// reach them: they are measured on their own.
pub fn markers_to_place(tree: &LayoutTree) -> (r: Vec<BoxId>)
    requires
        tree.wf(),
    ensures
        r@ == outside_markers(*tree, tree.boxes@.len() as int),
{
    let mut out: Vec<BoxId> = Vec::new();
    let n: usize = tree.boxes.len();
    let mut i: usize = 0;
    while i < n
        invariant
            i <= n == tree.boxes@.len(),
            n <= u32::MAX,
            out@ == outside_markers(*tree, i as int),
        decreases n - i,
    {
        if tree.boxes[i].is_outside_marker() && tree.boxes[i].parent.is_some() {
            out.push(BoxId(i as u32));
        }
        i = i + 1;
    }
    out
}

/// How far a relatively positioned float is moved: by its `left`, or against its `right`
/// where only that is given; where the box around it runs from right to left, the `right`
/// wins instead. By its `top`, or against its `bottom` where only that is given. Other boxes
/// are not moved.
pub proof fn relative_floats_move_by_their_insets(tree: LayoutTree, i: int, p: BoxId)
    requires
        tree.boxes@[i].parent == Some(p),
    ensures
        ({
            let b = tree.boxes@[i];
            let by = relative_float_offset(tree, i);
            let inset = b.style.inset;
            let moves = b.style.float != Float::Off && b.position == CssPosition::Relative;
            let rtl = tree.at(p).style.direction == Direction::Rtl;
            &&& !moves ==> by == (0int, 0int)
            &&& moves ==> match (inset.left, inset.right) {
                (Dimension::Length(l), Dimension::Length(r)) => by.0 == if rtl {
                    -r
                } else {
                    l as int
                },
                (Dimension::Length(l), Dimension::Auto) => by.0 == l,
                (Dimension::Auto, Dimension::Length(r)) => by.0 == -r,
                (Dimension::Auto, Dimension::Auto) => by.0 == 0,
                _ => true,
            }
            &&& moves ==> match (inset.top, inset.bottom) {
                (Dimension::Length(t), _) => by.1 == t,
                (Dimension::Auto, Dimension::Length(b)) => by.1 == -b,
                (Dimension::Auto, Dimension::Auto) => by.1 == 0,
                _ => true,
            }
        }),
{
}

/// An absolutely positioned box with a width, both insets and two `auto` margins stands in
/// the middle of what the insets leave of the padding box of its containing block, and one
/// that has no room there overflows at the end of the line. With a height and in the other
/// axis it is the same.
pub proof fn auto_margins_centre_a_box(b: LayoutBox, parent: LayoutBox)
    ensures
        ({
            let l = parent.unrounded_layout;
            let size = b.unrounded_layout.size;
            let to = margin_correction(b, parent).0;
            let used = margin_correction(b, parent).1;
            let width = l.size.width - l.border.left - l.border.right - l.scrollbar_size.width;
            let height = l.size.height - l.border.top - l.border.bottom - l.scrollbar_size.height;
            let rtl = parent.style.direction == Direction::Rtl;
            &&& match (b.style.inset.left, b.style.inset.right) {
                (Dimension::Length(start), Dimension::Length(end)) => {
                    let free = width - start - end - size.width;
                    b.style.size.width != Dimension::Auto && b.style.margin.left == Dimension::Auto
                        && b.style.margin.right == Dimension::Auto && 0 <= width <= 0x1000_0000
                        && 0 <= l.border.left <= 0x1000_0000 && 0 <= start <= 0x1000_0000 && 0
                        <= end <= 0x1000_0000 && 0 <= size.width <= 0x1000_0000 ==> {
                        &&& free >= 0 ==> used.left == used.right && 2 * used.left <= free <= 2
                            * used.left + 1
                        &&& free >= 0 && !rtl ==> to.x == l.border.left + start + used.left
                        &&& free >= 0 && rtl ==> to.x + size.width == l.border.left + width - end
                            - used.right
                        &&& free < 0 && !rtl ==> to.x == l.border.left + start
                        &&& free < 0 && rtl ==> to.x + size.width == l.border.left + width - end
                    }
                },
                (Dimension::Auto, _) => to.x == b.unrounded_layout.location.x,
                (_, Dimension::Auto) => to.x == b.unrounded_layout.location.x,
                _ => true,
            }
            &&& match (b.style.inset.top, b.style.inset.bottom) {
                (Dimension::Length(start), Dimension::Length(end)) => {
                    let free = height - start - end - size.height;
                    b.style.size.height != Dimension::Auto && b.style.margin.top == Dimension::Auto
                        && b.style.margin.bottom == Dimension::Auto && 0 <= height <= 0x1000_0000
                        && 0 <= l.border.top <= 0x1000_0000 && 0 <= start <= 0x1000_0000 && 0 <= end
                        <= 0x1000_0000 && 0 <= size.height <= 0x1000_0000 ==> {
                        &&& free >= 0 ==> used.top == used.bottom && 2 * used.top <= free <= 2
                            * used.top + 1
                        &&& free >= 0 ==> to.y == l.border.top + start + used.top
                        &&& free < 0 ==> to.y == l.border.top + start
                    }
                },
                _ => true,
            }
        }),
{
}

/// A marker outside its item ends half an em before the content box of the item and begins
/// at its top, with the size that it was measured to have.
pub proof fn markers_end_before_their_item(tree: LayoutTree, i: int, size: Size, item: BoxId)
    requires
        tree.boxes@[i].parent == Some(item),
        tree.boxes@[i].outside_marker(),
    ensures
        ({
            let l = tree.at(item).unrounded_layout;
            let m = placed_marker(tree, i, size).unrounded_layout;
            let em = tree.boxes@[i].font_size;
            let edge = l.border.left + l.padding.left;
            let top = l.border.top + l.padding.top;
            &&& m.size == size
            &&& -0x1000_0000 <= edge <= 0x1000_0000 && 0 <= size.width <= 0x1000_0000 && 0 <= em
                <= 0x1000_0000 ==> em - 1 <= 2 * (edge - (m.location.x + m.size.width)) <= em
            &&& -0x1000_0000 <= top <= 0x1000_0000 ==> m.location.y == top
        }),
{
}

} // verus!
