//! Layout of an inline formatting context, around the text shaper: how wide its lines may
//! be, what space its atomic boxes have, where they go, and how large the box comes out.
//!
//! The shaper breaks the lines in between: it is given the sizes of the atomic boxes and the
//! width that is found here, and its lines are read for what follows.

use vstd::prelude::*;

use crate::sizing::{
    box_adjustment, box_sizing_adjustment, first_of, least, minus, most, node_sizes, plus, resolve,
    resolve_edges, resolve_node_sizes, resolve_or_zero, resolved, resolved_edges, resolved_or_zero,
    scale, within, Frame, MaybeSize, NodeSizes, SizingMode, Space, Spaces, WideSize,
};
use crate::tree::{BoxStyle, Display, Layout, Placement, PseudoBox, Ratio};
use crate::units::{fit, fitted, hold, held, Dimension, EdgeDimensions, Edges, Offset, Size, UNITS_PER_PX};

verus! {

/// The size of an axis whose bounds leave no room: the lower one.
pub open spec fn pinned(lo: Option<i64>, hi: Option<i64>) -> Option<i64> {
    match (lo, hi) {
        (Some(l), Some(h)) => if h <= l {
            Some(l)
        } else {
            None
        },
        _ => None,
    }
}

fn pin(lo: Option<i64>, hi: Option<i64>) -> (r: Option<i64>)
    ensures
        r == pinned(lo, hi),
{
    match (lo, hi) {
        (Some(l), Some(h)) => if h <= l {
            Some(l)
        } else {
            None
        },
        _ => None,
    }
}

/// An axis that is at least so long, where it is known.
pub open spec fn floored(v: Option<i64>, lo: i64) -> Option<i64> {
    match v {
        Some(x) => Some(most(x, lo)),
        None => None,
    }
}

fn floor_at(v: Option<i64>, lo: i64) -> (r: Option<i64>)
    ensures
        r == floored(v, lo),
{
    match v {
        Some(x) => Some(most(x, lo)),
        None => None,
    }
}

/// What is known of the size of a box with inline content before its content is laid out:
/// what it was given, else what its bounds pin, else its style's size, and no less than its
/// padding and border.
pub open spec fn styled_size(
    style: BoxStyle,
    known: MaybeSize,
    parent: MaybeSize,
    mode: SizingMode,
) -> MaybeSize {
    let pb = Frame::of(style, parent.width).padding_border();
    let n = node_sizes(style, known, parent, mode, box_adjustment(style, pb));
    MaybeSize {
        width: floored(
            first_of(first_of(known.width, pinned(n.min.width, n.max.width)), n.size.width),
            pb.width,
        ),
        height: floored(
            first_of(first_of(known.height, pinned(n.min.height, n.max.height)), n.size.height),
            pb.height,
        ),
    }
}

/// What is known of the size of a box with inline content before its content is laid out. If
/// only the size is asked for and both axes are known, the content need not be touched.
pub fn inline_styled_size(
    style: &BoxStyle,
    known: MaybeSize,
    parent: MaybeSize,
    mode: SizingMode,
) -> (r: MaybeSize)
    ensures
        r == styled_size(*style, known, parent, mode),
{
    let frame: Frame = Frame::resolve(style, parent.width);
    let pb: WideSize = frame.padding_border_size();
    let n: NodeSizes = resolve_node_sizes(
        style,
        known,
        parent,
        mode,
        box_sizing_adjustment(style, pb),
    );
    MaybeSize {
        width: floor_at(
            first_of(first_of(known.width, pin(n.min.width, n.max.width)), n.size.width),
            pb.width,
        ),
        height: floor_at(
            first_of(first_of(known.height, pin(n.min.height, n.max.height)), n.size.height),
            pb.height,
        ),
    }
}

/// What an inline formatting context has around its content.
#[derive(Clone, Copy, PartialEq, Eq, Debug, Structural)]
pub struct InlineFrame {
    pub frame: Frame,
    pub margin: Edges,
    pub sizes: NodeSizes,
    /// The box is a scroll container in some axis.
    pub scrolls: bool,
    /// Something about the box keeps margins from collapsing through it, however empty it is.
    pub solid: bool,
}

/// The box keeps margins from collapsing through it.
pub open spec fn is_solid(style: BoxStyle, frame: Frame) -> bool {
    !(style.display is Block) || style.overflow_x.scrolls() || style.overflow_y.scrolls()
        || style.placement is OutOfFlow || frame.padding.top > 0 || frame.padding.bottom > 0
        || frame.border.top > 0 || frame.border.bottom > 0
}

/// What an inline formatting context has around its content.
pub open spec fn inline_frame_of(
    style: BoxStyle,
    known: MaybeSize,
    parent: MaybeSize,
    mode: SizingMode,
) -> InlineFrame {
    let frame = Frame::of(style, parent.width);
    InlineFrame {
        frame,
        margin: resolved_edges(style.margin, parent.width),
        sizes: node_sizes(
            style,
            known,
            parent,
            mode,
            box_adjustment(style, frame.padding_border()),
        ),
        scrolls: style.overflow_x.scrolls() || style.overflow_y.scrolls(),
        solid: is_solid(style, frame),
    }
}

/// What an inline formatting context has around its content. Percentages of padding, border
/// and margin go by the width of the containing block in both axes.
pub fn inline_frame(style: &BoxStyle, known: MaybeSize, parent: MaybeSize, mode: SizingMode) -> (r:
    InlineFrame)
    ensures
        r == inline_frame_of(*style, known, parent, mode),
        r.frame.small(),
{
    let frame: Frame = Frame::resolve(style, parent.width);
    let adjustment: WideSize = box_sizing_adjustment(style, frame.padding_border_size());
    let scrolls: bool = style.overflow_x.is_scroll_container()
        || style.overflow_y.is_scroll_container();
    let solid: bool = style.display != Display::Block || scrolls || style.placement
        == Placement::OutOfFlow || frame.padding.top > 0 || frame.padding.bottom > 0
        || frame.border.top > 0 || frame.border.bottom > 0;
    InlineFrame {
        frame,
        margin: resolve_edges(style.margin, parent.width),
        sizes: resolve_node_sizes(style, known, parent, mode, adjustment),
        scrolls,
        solid,
    }
}

/// The size of the box where its content need not be laid out: only the size is asked for, and
/// both axes are known.
pub fn known_size(known: MaybeSize, only_measured: bool) -> (r: Option<WideSize>)
    ensures
        r == match (known.width, known.height) {
            (Some(width), Some(height)) => if only_measured {
                Some(WideSize { width, height })
            } else {
                None
            },
            _ => None,
        },
{
    match (known.width, known.height) {
        (Some(width), Some(height)) => if only_measured {
            Some(WideSize { width, height })
        } else {
            None
        },
        _ => None,
    }
}

/// The size of a context with neither text nor boxes: its padding and border, if margins
/// collapse through it. None for another one, whose lines decide.
pub fn empty_size(f: &InlineFrame, has_text: bool, has_boxes: bool) -> (r: Option<WideSize>)
    ensures
        r == if f.solid || has_text || has_boxes {
            None
        } else {
            Some(
                WideSize {
                    width: most(0, f.frame.padding_border().width),
                    height: most(0, f.frame.padding_border().height),
                },
            )
        },
{
    if f.solid || has_text || has_boxes {
        return None;
    }
    let pb: WideSize = f.frame.padding_border_size();
    Some(WideSize { width: most(0, pb.width), height: most(0, pb.height) })
}

/// The space in an axis for the content: the known size, else the box's own, else what there
/// is less its margins, within its bounds; less what the box keeps around its content.
pub open spec fn content_space(
    known: Option<i64>,
    space: Space,
    margin: i64,
    own: Option<i64>,
    lo: Option<i64>,
    hi: Option<i64>,
    inset: i64,
) -> Space {
    let outer = match first_of(own, known) {
        Some(v) => Space::Definite(v),
        None => match space {
            Space::Definite(v) => Space::Definite(minus(v, margin)),
            s => s,
        },
    };
    match outer {
        Space::Definite(v) => Space::Definite(minus(within(v, lo, hi), inset)),
        s => s,
    }
}

fn find_content_space(
    known: Option<i64>,
    space: Space,
    margin: i64,
    own: Option<i64>,
    lo: Option<i64>,
    hi: Option<i64>,
    inset: i64,
) -> (r: Space)
    ensures
        r == content_space(known, space, margin, own, lo, hi, inset),
{
    let outer: Space = match first_of(own, known) {
        Some(v) => Space::Definite(v),
        None => match space {
            Space::Definite(v) => Space::Definite(minus(v, margin)),
            s => s,
        },
    };
    match outer {
        Space::Definite(v) => Space::Definite(minus(within(v, lo, hi), inset)),
        s => s,
    }
}

/// The space for the content of an inline formatting context.
pub open spec fn inline_space_of(f: InlineFrame, known: MaybeSize, space: Spaces) -> Spaces {
    Spaces {
        width: content_space(
            known.width,
            space.width,
            (f.margin.left + f.margin.right) as i64,
            f.sizes.size.width,
            f.sizes.min.width,
            f.sizes.max.width,
            f.frame.inset().width,
        ),
        height: content_space(
            known.height,
            space.height,
            (f.margin.top + f.margin.bottom) as i64,
            f.sizes.size.height,
            f.sizes.min.height,
            f.sizes.max.height,
            f.frame.inset().height,
        ),
    }
}

/// The space for the content of an inline formatting context: what its atomic boxes have to
/// lay themselves out in.
pub fn inline_space(f: &InlineFrame, known: MaybeSize, space: Spaces) -> (r: Spaces)
    requires
        f.frame.small(),
    ensures
        r == inline_space_of(*f, known, space),
{
    let inset: WideSize = f.frame.inset_size();
    Spaces {
        width: find_content_space(
            known.width,
            space.width,
            f.margin.left as i64 + f.margin.right as i64,
            f.sizes.size.width,
            f.sizes.min.width,
            f.sizes.max.width,
            inset.width,
        ),
        height: find_content_space(
            known.height,
            space.height,
            f.margin.top as i64 + f.margin.bottom as i64,
            f.sizes.size.height,
            f.sizes.min.height,
            f.sizes.max.height,
            inset.height,
        ),
    }
}

/// The edges of an atomic box, each axis over its own basis.
pub open spec fn edges_over(e: EdgeDimensions, basis: MaybeSize) -> Edges {
    Edges {
        left: resolved_or_zero(e.left, basis.width) as i32,
        right: resolved_or_zero(e.right, basis.width) as i32,
        top: resolved_or_zero(e.top, basis.height) as i32,
        bottom: resolved_or_zero(e.bottom, basis.height) as i32,
    }
}

fn find_edges_over(e: EdgeDimensions, basis: MaybeSize) -> (r: Edges)
    ensures
        r == edges_over(e, basis),
{
    Edges {
        left: resolve_or_zero(e.left, basis.width) as i32,
        right: resolve_or_zero(e.right, basis.width) as i32,
        top: resolve_or_zero(e.top, basis.height) as i32,
        bottom: resolve_or_zero(e.bottom, basis.height) as i32,
    }
}

/// The room that an atomic box takes in its line: its margin box, or none if it is
/// absolutely positioned.
pub open spec fn line_room(style: BoxStyle, parent: MaybeSize, output: Size) -> WideSize {
    if style.placement is OutOfFlow {
        WideSize { width: 0, height: 0 }
    } else {
        let m = edges_over(style.margin, parent);
        WideSize {
            width: (m.left + m.right + output.width) as i64,
            height: (m.top + m.bottom + output.height) as i64,
        }
    }
}

/// The room that an atomic box of the size `output` takes in its line.
pub fn atomic_room(style: &BoxStyle, parent: MaybeSize, output: Size) -> (r: WideSize)
    ensures
        r == line_room(*style, parent, output),
{
    if style.placement == Placement::OutOfFlow {
        return WideSize { width: 0, height: 0 };
    }
    let m: Edges = find_edges_over(style.margin, parent);
    WideSize {
        width: m.left as i64 + m.right as i64 + output.width as i64,
        height: m.top as i64 + m.bottom as i64 + output.height as i64,
    }
}

/// The used `text-indent` of a box. Percentages go by the known width, or by nothing. A marker
/// has none: indenting a box that shrinks to its text would push the text off its own line.
pub open spec fn indent_of(pseudo: Option<PseudoBox>, indent: Dimension, known_width: Option<i64>) -> i64 {
    if pseudo == Some(PseudoBox::Marker) {
        0
    } else {
        resolved_or_zero(
            indent,
            Some(
                match known_width {
                    Some(w) => w,
                    None => 0i64,
                },
            ),
        )
    }
}

/// The used `text-indent` of a box.
pub fn used_text_indent(
    pseudo: Option<PseudoBox>,
    indent: Dimension,
    known_width: Option<i64>,
) -> (r: i64)
    ensures
        r == indent_of(pseudo, indent, known_width),
{
    if let Some(PseudoBox::Marker) = pseudo {
        return 0;
    }
    let basis: i64 = match known_width {
        Some(w) => w,
        None => 0,
    };
    resolve_or_zero(indent, Some(basis))
}

/// A length rounded up to whole px.
pub open spec fn px_above(v: int) -> int {
    ((v + UNITS_PER_PX - 1) / UNITS_PER_PX as int) * UNITS_PER_PX
}

fn round_up(v: i64) -> (r: i64)
    requires
        -crate::units::FAR <= v <= crate::units::FAR,
    ensures
        r == px_above(v as int),
        -0x2000_0000_0000_0000 <= r <= 0x2000_0000_0000_0000,
{
    let t: i64 = v + 63;
    let q: i64 = if t >= 0 {
        t / 64
    } else {
        let m: i64 = t % 64;
        if m == 0 {
            t / 64
        } else {
            (t - m) / 64 - 1
        }
    };
    q * 64
}

/// The width that the content asks for: its least, its most, or what there is between the
/// two; in whole px.
pub open spec fn asked_width(space: Space, lo: i64, hi: i64) -> int {
    px_above(
        match space {
            Space::MinContent => lo as int,
            Space::MaxContent => hi as int,
            Space::Definite(limit) => most(least(limit, hi), lo) as int,
        },
    )
}

/// The width of the lines: the known width less padding and border, else what the content
/// asks for within the box's own sizes.
pub open spec fn width_of_lines(
    f: InlineFrame,
    known: Option<i64>,
    space: Space,
    lo: i64,
    hi: i64,
) -> i64 {
    let pb = f.frame.padding_border().width;
    match known {
        Some(w) => minus(w, pb),
        None => {
            let asked = held(asked_width(space, lo, hi)) as i64;
            let outer = match f.sizes.size.width {
                Some(w) => w,
                None => plus(asked, pb),
            };
            minus(
                within(most(outer, asked), f.sizes.min.width, f.sizes.max.width),
                pb,
            )
        },
    }
}

/// The width of the lines, given the least and the most that the content asks for.
pub fn line_width(f: &InlineFrame, known: Option<i64>, space: Space, lo: i64, hi: i64) -> (r: i64)
    requires
        -crate::units::FAR <= lo <= crate::units::FAR,
        -crate::units::FAR <= hi <= crate::units::FAR,
    ensures
        r == width_of_lines(*f, known, space, lo, hi),
{
    let pb: i64 = f.frame.padding_border_size().width;
    if let Some(w) = known {
        return minus(w, pb);
    }
    let wanted: i64 = match space {
        Space::MinContent => lo,
        Space::MaxContent => hi,
        Space::Definite(limit) => most(least(limit, hi), lo),
    };
    let asked: i64 = hold(round_up(wanted) as i128);
    let outer: i64 = match f.sizes.size.width {
        Some(w) => w,
        None => plus(asked, pb),
    };
    minus(within(most(outer, asked), f.sizes.min.width, f.sizes.max.width), pb)
}

/// Where an atomic box stands in its line, with its margins.
#[derive(Clone, Copy, PartialEq, Eq, Debug, Structural)]
pub struct PlacedAtomic {
    pub x: i64,
    pub y: i64,
    pub width: i64,
    pub height: i64,
}

/// The position along an axis of an absolutely positioned box: by its start inset, else by
/// its end inset, else where it stands in the line.
pub open spec fn absolute_position(
    start: Option<i64>,
    end: Option<i64>,
    margin_start: i32,
    margin_end: i32,
    size: i32,
    container: i64,
    in_line: i64,
) -> i64 {
    match (start, end) {
        (Some(s), _) => held(s + margin_start) as i64,
        (None, Some(e)) => held(container - e - size - margin_end) as i64,
        (None, None) => in_line,
    }
}

fn find_absolute_position(
    start: Option<i64>,
    end: Option<i64>,
    margin_start: i32,
    margin_end: i32,
    size: i32,
    container: i64,
    in_line: i64,
) -> (r: i64)
    ensures
        r == absolute_position(start, end, margin_start, margin_end, size, container, in_line),
{
    match (start, end) {
        (Some(s), _) => hold(s as i128 + margin_start as i128),
        (None, Some(e)) => hold(
            container as i128 - e as i128 - size as i128 - margin_end as i128,
        ),
        (None, None) => in_line,
    }
}

/// The layout of an atomic box of the style `style` that stands at `at`: `parent` is the
/// space that it was laid out in, `container` the size of the content, and `output` its size
/// if it is absolutely positioned.
pub open spec fn atomic_layout_of(
    f: InlineFrame,
    style: BoxStyle,
    parent: MaybeSize,
    container: WideSize,
    at: PlacedAtomic,
    output: Size,
    before: Layout,
) -> Layout {
    let padding = edges_over(style.padding, parent);
    let border = edges_over(style.border, parent);
    let m = edges_over(style.margin, parent);
    let x = held(at.x + m.left + f.frame.content_left()) as i64;
    let y = held(at.y + m.top + f.frame.content_top()) as i64;
    if style.placement is OutOfFlow {
        Layout {
            size: output,
            location: Offset {
                x: fitted(
                    absolute_position(
                        resolved(style.inset.left, Some(container.width)),
                        resolved(style.inset.right, Some(container.width)),
                        m.left,
                        m.right,
                        output.width,
                        container.width,
                        x,
                    ) as int,
                ) as i32,
                y: fitted(
                    absolute_position(
                        resolved(style.inset.top, Some(container.height)),
                        resolved(style.inset.bottom, Some(container.height)),
                        m.top,
                        m.bottom,
                        output.height,
                        container.height,
                        y,
                    ) as int,
                ) as i32,
            },
            padding,
            border,
            ..before
        }
    } else {
        Layout {
            size: Size {
                width: fitted(at.width - m.left - m.right) as i32,
                height: fitted(at.height - m.top - m.bottom) as i32,
            },
            location: Offset { x: fitted(x as int) as i32, y: fitted(y as int) as i32 },
            padding,
            border,
            ..before
        }
    }
}

/// The layout of an atomic box that the shaper has placed.
pub fn atomic_layout(
    f: &InlineFrame,
    style: &BoxStyle,
    parent: MaybeSize,
    container: WideSize,
    at: PlacedAtomic,
    output: Size,
    before: Layout,
) -> (r: Layout)
    ensures
        r == atomic_layout_of(*f, *style, parent, container, at, output, before),
{
    let padding: Edges = find_edges_over(style.padding, parent);
    let border: Edges = find_edges_over(style.border, parent);
    let m: Edges = find_edges_over(style.margin, parent);
    let left: i128 = f.frame.padding.left as i128 + f.frame.border.left as i128;
    let top: i128 = f.frame.padding.top as i128 + f.frame.border.top as i128;
    let x: i64 = hold(at.x as i128 + m.left as i128 + left);
    let y: i64 = hold(at.y as i128 + m.top as i128 + top);
    let mut layout: Layout = before;
    layout.padding = padding;
    layout.border = border;
    if style.placement == Placement::OutOfFlow {
        layout.size = output;
        layout.location = Offset {
            x: fit(
                find_absolute_position(
                    resolve(style.inset.left, Some(container.width)),
                    resolve(style.inset.right, Some(container.width)),
                    m.left,
                    m.right,
                    output.width,
                    container.width,
                    x,
                ) as i128,
            ),
            y: fit(
                find_absolute_position(
                    resolve(style.inset.top, Some(container.height)),
                    resolve(style.inset.bottom, Some(container.height)),
                    m.top,
                    m.bottom,
                    output.height,
                    container.height,
                    y,
                ) as i128,
            ),
        };
    } else {
        layout.size = Size {
            width: fit(at.width as i128 - m.left as i128 - m.right as i128),
            height: fit(at.height as i128 - m.top as i128 - m.bottom as i128),
        };
        layout.location = Offset { x: fit(x as i128), y: fit(y as i128) };
    }
    layout
}

/// How an inline formatting context came out.
#[derive(Clone, Copy, PartialEq, Eq, Debug, Structural)]
pub struct InlineOutput {
    /// The size of the border box.
    pub size: WideSize,
    pub content_size: WideSize,
    /// The first baseline, from the border edge.
    pub baseline: Option<i64>,
    /// Margins collapse through the box.
    pub collapses: bool,
}

/// The size of the content: what is known, else the lines'.
pub open spec fn measured_size(known: MaybeSize, lines: WideSize) -> WideSize {
    WideSize {
        width: match known.width {
            Some(w) => w,
            None => lines.width,
        },
        height: match known.height {
            Some(h) => h,
            None => lines.height,
        },
    }
}

/// The size of an axis: what is known, else the box's own, else the content's with what is
/// around it, within its bounds.
pub open spec fn outer_size(
    known: Option<i64>,
    own: Option<i64>,
    content: i64,
    inset: i64,
    lo: Option<i64>,
    hi: Option<i64>,
) -> i64 {
    within(
        match first_of(known, own) {
            Some(v) => v,
            None => plus(content, inset),
        },
        lo,
        hi,
    )
}

fn find_outer_size(
    known: Option<i64>,
    own: Option<i64>,
    content: i64,
    inset: i64,
    lo: Option<i64>,
    hi: Option<i64>,
) -> (r: i64)
    ensures
        r == outer_size(known, own, content, inset, lo, hi),
{
    let v: i64 = match first_of(known, own) {
        Some(v) => v,
        None => plus(content, inset),
    };
    within(v, lo, hi)
}

/// How an inline formatting context comes out. `lines` is the width and the height of its
/// lines, `baseline` the first of theirs.
pub open spec fn output_of(
    f: InlineFrame,
    known: MaybeSize,
    lines: WideSize,
    baseline: Option<i64>,
) -> InlineOutput {
    let measured = measured_size(known, lines);
    let inset = f.frame.inset();
    let pb = f.frame.padding_border();
    let n = f.sizes;
    let width = outer_size(
        known.width,
        n.size.width,
        measured.width,
        inset.width,
        n.min.width,
        n.max.width,
    );
    let height = outer_size(
        known.height,
        n.size.height,
        measured.height,
        inset.height,
        n.min.height,
        n.max.height,
    );
    let tall = match Ratio::proper(n.ratio) {
        Some(q) => most(height, q.height_for(width)),
        None => most(height, 0),
    };
    let size = WideSize { width: most(width, pb.width), height: most(tall, pb.height) };
    InlineOutput {
        size,
        content_size: WideSize {
            width: plus(measured.width, (f.frame.padding.left + f.frame.padding.right) as i64),
            height: plus(measured.height, (f.frame.padding.top + f.frame.padding.bottom) as i64),
        },
        baseline: if f.scrolls {
            None
        } else {
            match baseline {
                Some(b) => Some(held(f.frame.content_top() + b) as i64),
                None => None,
            }
        },
        collapses: !f.solid && size.height == 0 && measured.height == 0,
    }
}

/// How an inline formatting context comes out: its size, within its bounds and by its aspect
/// ratio; its first baseline, unless it scrolls; and whether margins collapse through it.
pub fn inline_output(
    f: &InlineFrame,
    known: MaybeSize,
    lines: WideSize,
    baseline: Option<i64>,
) -> (r: InlineOutput)
    requires
        f.frame.small(),
    ensures
        r == output_of(*f, known, lines, baseline),
{
    let measured = WideSize {
        width: match known.width {
            Some(w) => w,
            None => lines.width,
        },
        height: match known.height {
            Some(h) => h,
            None => lines.height,
        },
    };
    let inset: WideSize = f.frame.inset_size();
    let pb: WideSize = f.frame.padding_border_size();
    let n: NodeSizes = f.sizes;
    let width: i64 = find_outer_size(
        known.width,
        n.size.width,
        measured.width,
        inset.width,
        n.min.width,
        n.max.width,
    );
    let height: i64 = find_outer_size(
        known.height,
        n.size.height,
        measured.height,
        inset.height,
        n.min.height,
        n.max.height,
    );
    let tall: i64 = match crate::sizing::proper_ratio(n.ratio) {
        Some(q) => most(height, scale(width, q.height, q.width)),
        None => most(height, 0),
    };
    let size = WideSize { width: most(width, pb.width), height: most(tall, pb.height) };
    InlineOutput {
        size,
        content_size: WideSize {
            width: plus(
                measured.width,
                f.frame.padding.left as i64 + f.frame.padding.right as i64,
            ),
            height: plus(
                measured.height,
                f.frame.padding.top as i64 + f.frame.padding.bottom as i64,
            ),
        },
        baseline: if f.scrolls {
            None
        } else {
            match baseline {
                Some(b) => Some(
                    hold(
                        f.frame.padding.top as i128 + f.frame.border.top as i128 + b as i128,
                    ),
                ),
                None => None,
            }
        },
        collapses: !f.solid && size.height == 0 && measured.height == 0,
    }
}

/// A context that comes out is no smaller than its padding and border, and a box of known
/// width has it where its own bounds and its padding and border allow.
pub proof fn inline_size_keeps_its_bounds(
    f: InlineFrame,
    known: MaybeSize,
    lines: WideSize,
    baseline: Option<i64>,
)
    ensures
        ({
            let o = output_of(f, known, lines, baseline);
            &&& o.size.width >= f.frame.padding_border().width
            &&& o.size.height >= f.frame.padding_border().height
            &&& match known.width {
                Some(w) => o.size.width == most(
                    within(w, f.sizes.min.width, f.sizes.max.width),
                    f.frame.padding_border().width,
                ),
                None => true,
            }
        }),
{
}

/// Lines are as wide as the content needs at least, wherever nothing else decides.
pub proof fn lines_hold_the_longest_word(f: InlineFrame, space: Space, lo: i64, hi: i64)
    requires
        0 <= lo <= hi <= 0x1000_0000_0000,
        f.sizes.min.width is None,
        f.sizes.max.width is None,
        f.sizes.size.width is None,
        0 <= f.frame.padding_border().width <= 0x1000_0000_0000,
    ensures
        width_of_lines(f, None, space, lo, hi) >= lo,
{
    let wanted = match space {
        Space::MinContent => lo as int,
        Space::MaxContent => hi as int,
        Space::Definite(limit) => most(least(limit, hi), lo) as int,
    };
    assert(wanted >= lo && wanted <= 0x1000_0000_0000);
    let t = wanted + 63;
    assert(px_above(wanted) == (t / 64) * 64);
    assert(t == 64 * (t / 64) + t % 64);
}

/// The width of the lines of a box that nothing else sizes: as wide as the content asks for,
/// up to whole px. That is its least width, its most, or the space there is between the two.
pub proof fn lines_shrink_to_fit(f: InlineFrame, space: Space, lo: i64, hi: i64)
    requires
        0 <= lo <= hi <= 0x1000_0000_0000,
        f.sizes.min.width is None,
        f.sizes.max.width is None,
        f.sizes.size.width is None,
        0 <= f.frame.padding_border().width <= 0x1000_0000_0000,
    ensures
        ({
            let w = width_of_lines(f, None, space, lo, hi);
            match space {
                Space::MinContent => lo <= w < lo + 64,
                Space::MaxContent => hi <= w < hi + 64,
                Space::Definite(limit) => {
                    &&& limit >= hi ==> hi <= w < hi + 64
                    &&& lo <= limit <= hi ==> limit <= w < limit + 64
                    &&& limit <= lo ==> lo <= w < lo + 64
                },
            }
        }),
{
    let wanted = match space {
        Space::MinContent => lo as int,
        Space::MaxContent => hi as int,
        Space::Definite(limit) => most(least(limit, hi), lo) as int,
    };
    let t = wanted + 63;
    assert(px_above(wanted) == (t / 64) * 64);
    assert(t == 64 * (t / 64) + t % 64);
}

/// A box of known width has lines of that width less its padding and border.
pub proof fn known_widths_leave_room_for_the_frame(f: InlineFrame, w: i64, space: Space, lo: i64, hi: i64)
    requires
        0 <= w <= 0x1000_0000_0000,
        -0x1000_0000_0000 <= f.frame.padding_border().width <= 0x1000_0000_0000,
    ensures
        width_of_lines(f, Some(w), space, lo, hi) + f.frame.padding_border().width == w,
{
}

/// How a context comes out that nothing else sizes: around its lines it has its padding,
/// border and scrollbars, and its first baseline is that of its lines, below its top border
/// and padding. A scroll container has no baseline.
pub proof fn contexts_are_sized_by_their_lines(
    f: InlineFrame,
    lines: WideSize,
    baseline: i64,
)
    requires
        f.sizes.size.width is None,
        f.sizes.size.height is None,
        f.sizes.min.width is None,
        f.sizes.min.height is None,
        f.sizes.max.width is None,
        f.sizes.max.height is None,
        f.sizes.ratio is None,
        0 <= lines.width <= 0x1000_0000_0000,
        0 <= lines.height <= 0x1000_0000_0000,
        -0x1000_0000_0000 <= baseline <= 0x1000_0000_0000,
        f.frame.small(),
        f.frame.gutter.width >= 0,
        f.frame.gutter.height >= 0,
        f.frame.padding_border().width >= 0,
        f.frame.padding_border().height >= 0,
    ensures
        ({
            let o = output_of(
                f,
                MaybeSize { width: None, height: None },
                lines,
                Some(baseline),
            );
            let pb = f.frame.padding_border();
            &&& o.size.width == lines.width + pb.width + f.frame.gutter.width
            &&& o.size.height == lines.height + pb.height + f.frame.gutter.height
            &&& f.scrolls ==> o.baseline is None
            &&& !f.scrolls ==> o.baseline == Some(
                (f.frame.border.top + f.frame.padding.top + baseline) as i64,
            )
        }),
{
}

/// Where an atomic box of a line goes. One in the flow stands past its margin from where the
/// line puts it, in the content box of the context, and has the room that the line keeps for
/// it less its margins. An absolutely positioned one is as far from the edges of the content
/// as its insets and margins say, the start first.
pub proof fn atomic_boxes_stand_in_their_line(
    f: InlineFrame,
    style: BoxStyle,
    parent: MaybeSize,
    container: WideSize,
    at: PlacedAtomic,
    output: Size,
    before: Layout,
)
    requires
        -0x1000_0000 <= at.x <= 0x1000_0000,
        -0x1000_0000 <= at.y <= 0x1000_0000,
        0 <= at.width <= 0x1000_0000,
        0 <= at.height <= 0x1000_0000,
        0 <= container.width <= 0x1000_0000,
        0 <= container.height <= 0x1000_0000,
        0 <= output.width <= 0x1000_0000,
        0 <= output.height <= 0x1000_0000,
        0 <= f.frame.content_left() <= 0x1000_0000,
        0 <= f.frame.content_top() <= 0x1000_0000,
    ensures
        ({
            let r = atomic_layout_of(f, style, parent, container, at, output, before);
            match (style.margin.left, style.margin.right, style.margin.top, style.margin.bottom) {
                (
                    Dimension::Length(ml),
                    Dimension::Length(mr),
                    Dimension::Length(mt),
                    Dimension::Length(mb),
                ) => -0x1000_0000 <= ml <= 0x1000_0000 && -0x1000_0000 <= mr <= 0x1000_0000
                    && -0x1000_0000 <= mt <= 0x1000_0000 && -0x1000_0000 <= mb <= 0x1000_0000 ==> {
                    &&& style.placement == Placement::InFlow ==> {
                        &&& r.location.x == at.x + ml + f.frame.border.left + f.frame.padding.left
                        &&& r.location.y == at.y + mt + f.frame.border.top + f.frame.padding.top
                        &&& ml + r.size.width + mr == at.width
                        &&& mt + r.size.height + mb == at.height
                    }
                    &&& style.placement == Placement::OutOfFlow ==> r.size == output
                    &&& style.placement == Placement::OutOfFlow ==> match (
                        style.inset.left,
                        style.inset.right,
                    ) {
                        (Dimension::Length(s), _) => -0x1000_0000 <= s <= 0x1000_0000
                            ==> r.location.x == s + ml,
                        (Dimension::Auto, Dimension::Length(e)) => -0x1000_0000 <= e <= 0x1000_0000
                            ==> r.location.x + r.size.width + mr + e == container.width,
                        (Dimension::Auto, Dimension::Auto) => r.location.x == at.x + ml
                            + f.frame.border.left + f.frame.padding.left,
                        _ => true,
                    }
                    &&& style.placement == Placement::OutOfFlow ==> match (
                        style.inset.top,
                        style.inset.bottom,
                    ) {
                        (Dimension::Length(s), _) => -0x1000_0000 <= s <= 0x1000_0000
                            ==> r.location.y == s + mt,
                        (Dimension::Auto, Dimension::Length(e)) => -0x1000_0000 <= e <= 0x1000_0000
                            ==> r.location.y + r.size.height + mb + e == container.height,
                        (Dimension::Auto, Dimension::Auto) => r.location.y == at.y + mt
                            + f.frame.border.top + f.frame.padding.top,
                        _ => true,
                    }
                },
                _ => true,
            }
        }),
{
}

/// The used `text-indent`: a length is itself, and the marker of a list item has none.
pub proof fn markers_are_not_indented(pseudo: Option<PseudoBox>, v: i32, known_width: Option<i64>)
    ensures
        pseudo == Some(PseudoBox::Marker) ==> indent_of(pseudo, Dimension::Length(v), known_width)
            == 0,
        pseudo != Some(PseudoBox::Marker) ==> indent_of(pseudo, Dimension::Length(v), known_width)
            == v,
{
}

} // verus!
