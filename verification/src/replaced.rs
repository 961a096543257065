//! Sizing of replaced elements and of the form controls that are sized like them:
//! natural size, attribute size, style size and aspect ratio, held to the style's bounds
//! by the table of CSS 2.2 §10.4.

use vstd::prelude::*;

use crate::sizing::{
    at_least, at_most, bounded, first_of, least, most, plus, proper_ratio, resolve, resolve_or_zero,
    resolve_size, scale, wide, Frame, MaybeSize, Space, Spaces, WideSize,
};
use crate::sizing::{resolved_or_zero, resolved_size};
use crate::style::{multiple, to_nearest};
use crate::transform::{nearest, quotients_are_near};
use crate::tree::{BoxSizing, BoxStyle, Ratio, ReplacedContext};
use crate::units::{fit, fitted, Dimension, Size, FAR};

verus! {

/// The ratio of two lengths where they have one: both positive, or both negative.
pub open spec fn ratio_of(width: int, height: int) -> Option<Ratio> {
    if width > 0 && height > 0 {
        Some(Ratio { width: width as u32, height: height as u32 })
    } else if width < 0 && height < 0 {
        Some(Ratio { width: (-width) as u32, height: (-height) as u32 })
    } else {
        None
    }
}

fn find_ratio(width: i32, height: i32) -> (r: Option<Ratio>)
    ensures
        r == ratio_of(width as int, height as int),
{
    if width > 0 && height > 0 {
        Some(Ratio { width: width as u32, height: height as u32 })
    } else if width < 0 && height < 0 {
        Some(Ratio { width: (-(width as i64)) as u32, height: (-(height as i64)) as u32 })
    } else {
        None
    }
}

/// The aspect ratio of a replaced element: the style's, else that of its content, else
/// that of its size attributes.
pub open spec fn used_ratio(context: ReplacedContext, style: BoxStyle) -> Option<Ratio> {
    match Ratio::proper(style.aspect_ratio) {
        Some(q) => Some(q),
        None => match ratio_of(
            context.inherent_size.width as int,
            context.inherent_size.height as int,
        ) {
            Some(q) => Some(q),
            None => match (context.attr_width, context.attr_height) {
                (Some(w), Some(h)) => ratio_of(w as int, h as int),
                _ => None,
            },
        },
    }
}

fn find_used_ratio(context: &ReplacedContext, style: &BoxStyle) -> (r: Option<Ratio>)
    ensures
        r == used_ratio(*context, *style),
        match r {
            Some(q) => q.usable(),
            None => true,
        },
{
    match proper_ratio(style.aspect_ratio) {
        Some(q) => Some(q),
        None => match find_ratio(context.inherent_size.width, context.inherent_size.height) {
            Some(q) => Some(q),
            None => match (context.attr_width, context.attr_height) {
                (Some(w), Some(h)) => find_ratio(w, h),
                _ => None,
            },
        },
    }
}

/// The basis of a percentage in the preferred and the maximal size: in the axis whose
/// min-content contribution is asked for, zero.
pub open spec fn percent_basis(parent: MaybeSize, space: Spaces) -> MaybeSize {
    MaybeSize {
        width: if space.width is MinContent {
            Some(0)
        } else {
            parent.width
        },
        height: parent.height,
    }
}

/// Bounds on the content box.
pub struct Bounds {
    pub min: MaybeSize,
    pub max: MaybeSize,
}

/// What the style subtracts from its sizes to get a content box.
pub open spec fn content_adjustment(style: BoxStyle, padding_border: WideSize) -> WideSize {
    if style.box_sizing is BorderBox {
        padding_border
    } else {
        WideSize { width: 0, height: 0 }
    }
}

/// An upper bound along an axis: the style's, no larger than the space and no smaller
/// than the lower bound.
pub open spec fn upper_bound(own: Option<i64>, space: Option<i64>, lo: Option<i64>) -> Option<i64> {
    bounded(first_of(own, space), lo, space)
}

/// The bounds on the content box of a replaced element.
pub open spec fn content_bounds(
    style: BoxStyle,
    parent: MaybeSize,
    space: Spaces,
    padding_border: WideSize,
) -> Bounds {
    let adjustment = content_adjustment(style, padding_border);
    let lo = resolved_size(style.min_size, parent).shrunk_by(adjustment);
    let own = resolved_size(style.max_size, percent_basis(parent, space));
    Bounds {
        min: lo,
        max: MaybeSize {
            width: upper_bound(own.width, space.width.definite(), lo.width),
            height: upper_bound(own.height, space.height.definite(), lo.height),
        }.shrunk_by(adjustment),
    }
}

fn find_content_bounds(
    style: &BoxStyle,
    parent: MaybeSize,
    space: Spaces,
    padding_border: WideSize,
) -> (r: Bounds)
    ensures
        r == content_bounds(*style, parent, space, padding_border),
{
    let adjustment: WideSize = content_adjustment_of(style, padding_border);
    let lo: MaybeSize = resolve_size(style.min_size, parent).shrink(adjustment);
    let own: MaybeSize = resolve_size(style.max_size, percent_basis_of(parent, space));
    let w: Option<i64> = space.width.into_option();
    let h: Option<i64> = space.height.into_option();
    Bounds {
        min: lo,
        max: MaybeSize {
            width: bounded(first_of(own.width, w), lo.width, w),
            height: bounded(first_of(own.height, h), lo.height, h),
        }.shrink(adjustment),
    }
}

fn content_adjustment_of(style: &BoxStyle, padding_border: WideSize) -> (r: WideSize)
    ensures
        r == content_adjustment(*style, padding_border),
{
    if matches!(style.box_sizing, BoxSizing::BorderBox) {
        padding_border
    } else {
        WideSize { width: 0, height: 0 }
    }
}

fn percent_basis_of(parent: MaybeSize, space: Spaces) -> (r: MaybeSize)
    ensures
        r == percent_basis(parent, space),
{
    MaybeSize {
        width: if matches!(space.width, Space::MinContent) {
            Some(0)
        } else {
            parent.width
        },
        height: parent.height,
    }
}

/// `v`, or zero where there is none, and no less than zero.
pub open spec fn floor_zero(v: Option<i64>) -> i64 {
    match v {
        Some(x) => most(x, 0),
        None => 0,
    }
}

/// The size of the content box before bounds: from a known size, else from the style,
/// else from the attributes, else the natural size. One given axis gives the other by
/// the ratio.
pub open spec fn preferred_size(
    known: MaybeSize,
    parent: MaybeSize,
    space: Spaces,
    context: ReplacedContext,
    style: BoxStyle,
    padding_border: WideSize,
) -> WideSize {
    let ratio = used_ratio(context, style);
    let by_style = resolved_size(style.size, percent_basis(parent, space)).by_ratio(
        ratio,
    ).shrunk_by(content_adjustment(style, padding_border));
    let attr = MaybeSize { width: wide(context.attr_width), height: wide(context.attr_height) };
    let size = if known.width is Some || known.height is Some {
        known.shrunk_by(padding_border).by_ratio(ratio)
    } else if by_style.width is Some || by_style.height is Some {
        by_style.by_ratio(ratio)
    } else if attr.width is Some || attr.height is Some {
        attr.by_ratio(ratio)
    } else {
        MaybeSize {
            width: Some(context.inherent_size.width as i64),
            height: Some(context.inherent_size.height as i64),
        }
    };
    WideSize { width: floor_zero(size.width), height: floor_zero(size.height) }
}

fn floor_at_zero(v: Option<i64>) -> (r: i64)
    ensures
        r == floor_zero(v),
        r >= 0,
{
    match v {
        Some(x) => most(x, 0),
        None => 0,
    }
}

fn find_preferred_size(
    known: MaybeSize,
    parent: MaybeSize,
    space: Spaces,
    context: &ReplacedContext,
    style: &BoxStyle,
    padding_border: WideSize,
    ratio: Option<Ratio>,
) -> (r: WideSize)
    requires
        ratio == used_ratio(*context, *style),
        match ratio {
            Some(q) => q.usable(),
            None => true,
        },
    ensures
        r == preferred_size(known, parent, space, *context, *style, padding_border),
        r.width >= 0,
        r.height >= 0,
{
    let by_style: MaybeSize = resolve_size(style.size, percent_basis_of(parent, space)).apply_ratio(
        ratio,
    ).shrink(content_adjustment_of(style, padding_border));
    let attr = MaybeSize { width: wide(context.attr_width), height: wide(context.attr_height) };
    let size: MaybeSize = if known.width.is_some() || known.height.is_some() {
        known.shrink(padding_border).apply_ratio(ratio)
    } else if by_style.width.is_some() || by_style.height.is_some() {
        by_style.apply_ratio(ratio)
    } else if attr.width.is_some() || attr.height.is_some() {
        attr.apply_ratio(ratio)
    } else {
        MaybeSize {
            width: Some(context.inherent_size.width as i64),
            height: Some(context.inherent_size.height as i64),
        }
    };
    WideSize { width: floor_at_zero(size.width), height: floor_at_zero(size.height) }
}

/// Whether a length keeps to its bounds. Only one of them can be violated: where they
/// contradict each other, the lower one holds.
#[derive(Clone, Copy, PartialEq, Eq, Debug, Structural)]
pub enum Violation {
    Kept,
    /// Below the minimum.
    Below,
    /// Above the maximum.
    Above,
}

/// How `v` keeps to its bounds.
pub open spec fn violation(v: i64, lo: Option<i64>, hi: Option<i64>) -> Violation {
    match lo {
        Some(m) if v < m => Violation::Below,
        _ => match hi {
            Some(m) if v > m => Violation::Above,
            _ => Violation::Kept,
        },
    }
}

fn find_violation(v: i64, lo: Option<i64>, hi: Option<i64>) -> (r: Violation)
    ensures
        r == violation(v, lo, hi),
{
    if let Some(m) = lo {
        if v < m {
            return Violation::Below;
        }
    }
    if let Some(m) = hi {
        if v > m {
            return Violation::Above;
        }
    }
    Violation::Kept
}

/// The height that goes with `width`, or `fallback` without a ratio.
pub open spec fn height_by(ratio: Option<Ratio>, width: i64, fallback: i64) -> i64 {
    match ratio {
        Some(q) => q.height_for(width),
        None => fallback,
    }
}

/// The width that goes with `height`, or `fallback` without a ratio.
pub open spec fn width_by(ratio: Option<Ratio>, height: i64, fallback: i64) -> i64 {
    match ratio {
        Some(q) => q.width_for(height),
        None => fallback,
    }
}

fn find_height(ratio: Option<Ratio>, width: i64, fallback: i64) -> (r: i64)
    requires
        match ratio {
            Some(q) => q.usable(),
            None => true,
        },
    ensures
        r == height_by(ratio, width, fallback),
{
    match ratio {
        Some(q) => scale(width, q.height, q.width),
        None => fallback,
    }
}

fn find_width(ratio: Option<Ratio>, height: i64, fallback: i64) -> (r: i64)
    requires
        match ratio {
            Some(q) => q.usable(),
            None => true,
        },
    ensures
        r == width_by(ratio, height, fallback),
{
    match ratio {
        Some(q) => scale(height, q.width, q.height),
        None => fallback,
    }
}

/// `v`, or zero where there is none.
pub open spec fn or_zero(v: Option<i64>) -> i64 {
    match v {
        Some(x) => x,
        None => 0,
    }
}

fn value(v: Option<i64>) -> (r: i64)
    ensures
        r == or_zero(v),
{
    match v {
        Some(x) => x,
        None => 0,
    }
}

/// `size` held to its bounds along the ratio: the table of CSS 2.2 §10.4. Where both
/// axes violate the same kind of bound, the one that is further off decides, and the
/// other follows by the ratio as far as its other bound allows.
pub open spec fn constrained(size: WideSize, ratio: Option<Ratio>, b: Bounds) -> WideSize {
    let (min_w, max_w) = (or_zero(b.min.width), or_zero(b.max.width));
    let (min_h, max_h) = (or_zero(b.min.height), or_zero(b.max.height));
    match (
        violation(size.width, b.min.width, b.max.width),
        violation(size.height, b.min.height, b.max.height),
    ) {
        (Violation::Kept, Violation::Kept) => size,
        (Violation::Above, Violation::Kept) => WideSize {
            width: max_w,
            height: at_least(height_by(ratio, max_w, size.height), b.min.height),
        },
        (Violation::Below, Violation::Kept) => WideSize {
            width: min_w,
            height: at_most(height_by(ratio, min_w, size.height), b.max.height),
        },
        (Violation::Kept, Violation::Above) => WideSize {
            width: at_least(width_by(ratio, max_h, size.width), b.min.width),
            height: max_h,
        },
        (Violation::Kept, Violation::Below) => WideSize {
            width: at_most(width_by(ratio, min_h, size.width), b.max.width),
            height: min_h,
        },
        (Violation::Above, Violation::Above) => if max_w * size.height <= max_h * size.width {
            WideSize {
                width: max_w,
                height: at_least(height_by(ratio, max_w, size.height), b.min.height),
            }
        } else {
            WideSize {
                width: at_least(width_by(ratio, max_h, size.width), b.min.width),
                height: max_h,
            }
        },
        (Violation::Below, Violation::Below) => if min_w * size.height <= min_h * size.width {
            WideSize {
                width: at_most(width_by(ratio, min_h, size.width), b.max.width),
                height: min_h,
            }
        } else {
            WideSize {
                width: min_w,
                height: at_most(height_by(ratio, min_w, size.height), b.max.height),
            }
        },
        (Violation::Below, Violation::Above) => WideSize { width: min_w, height: max_h },
        (Violation::Above, Violation::Below) => WideSize { width: max_w, height: min_h },
    }
}

fn product(a: i64, b: i64) -> (r: i128)
    ensures
        r == a * b,
{
    assert(-0x4000_0000_0000_0000_0000_0000_0000_0000 <= a * b
        <= 0x4000_0000_0000_0000_0000_0000_0000_0000) by (nonlinear_arith)
        requires
            -0x8000_0000_0000_0000 <= a <= 0x7fff_ffff_ffff_ffff,
            -0x8000_0000_0000_0000 <= b <= 0x7fff_ffff_ffff_ffff,
    ;
    a as i128 * b as i128
}

/// Holds `size` to its bounds along the ratio.
pub fn constrain(size: WideSize, ratio: Option<Ratio>, b: &Bounds) -> (r: WideSize)
    requires
        match ratio {
            Some(q) => q.usable(),
            None => true,
        },
    ensures
        r == constrained(size, ratio, *b),
{
    let min_w: i64 = value(b.min.width);
    let max_w: i64 = value(b.max.width);
    let min_h: i64 = value(b.min.height);
    let max_h: i64 = value(b.max.height);
    let across: Violation = find_violation(size.width, b.min.width, b.max.width);
    let down: Violation = find_violation(size.height, b.min.height, b.max.height);
    match (across, down) {
        (Violation::Kept, Violation::Kept) => size,
        (Violation::Above, Violation::Kept) => WideSize {
            width: max_w,
            height: at_least(find_height(ratio, max_w, size.height), b.min.height),
        },
        (Violation::Below, Violation::Kept) => WideSize {
            width: min_w,
            height: at_most(find_height(ratio, min_w, size.height), b.max.height),
        },
        (Violation::Kept, Violation::Above) => WideSize {
            width: at_least(find_width(ratio, max_h, size.width), b.min.width),
            height: max_h,
        },
        (Violation::Kept, Violation::Below) => WideSize {
            width: at_most(find_width(ratio, min_h, size.width), b.max.width),
            height: min_h,
        },
        (Violation::Above, Violation::Above) => {
            if product(max_w, size.height) <= product(max_h, size.width) {
                WideSize {
                    width: max_w,
                    height: at_least(find_height(ratio, max_w, size.height), b.min.height),
                }
            } else {
                WideSize {
                    width: at_least(find_width(ratio, max_h, size.width), b.min.width),
                    height: max_h,
                }
            }
        },
        (Violation::Below, Violation::Below) => {
            if product(min_w, size.height) <= product(min_h, size.width) {
                WideSize {
                    width: at_most(find_width(ratio, min_h, size.width), b.max.width),
                    height: min_h,
                }
            } else {
                WideSize {
                    width: min_w,
                    height: at_most(find_height(ratio, min_w, size.height), b.max.height),
                }
            }
        },
        (Violation::Below, Violation::Above) => WideSize { width: min_w, height: max_h },
        (Violation::Above, Violation::Below) => WideSize { width: max_w, height: min_h },
    }
}

/// The border box of a replaced element.
pub open spec fn replaced_size(
    known: MaybeSize,
    parent: MaybeSize,
    space: Spaces,
    context: ReplacedContext,
    style: BoxStyle,
) -> Size {
    let pb = Frame::of(style, parent.width).padding_border();
    let content = constrained(
        preferred_size(known, parent, space, context, style, pb),
        used_ratio(context, style),
        content_bounds(style, parent, space, pb),
    );
    Size {
        width: fitted(plus(content.width, pb.width) as int) as i32,
        height: fitted(plus(content.height, pb.height) as int) as i32,
    }
}

/// Measures a replaced element: its border box, from what is known of its size, the size
/// of its parent, the available space, its content and its style.
pub fn replaced_measure_function(
    known: MaybeSize,
    parent: MaybeSize,
    space: Spaces,
    context: &ReplacedContext,
    style: &BoxStyle,
) -> (r: Size)
    ensures
        r == replaced_size(known, parent, space, *context, *style),
{
    let frame: Frame = Frame::resolve(style, parent.width);
    let pb: WideSize = frame.padding_border_size();
    let ratio: Option<Ratio> = find_used_ratio(context, style);
    let size: WideSize = find_preferred_size(known, parent, space, context, style, pb, ratio);
    let b: Bounds = find_content_bounds(style, parent, space, pb);
    let content: WideSize = constrain(size, ratio, &b);
    Size {
        width: fit(plus(content.width, pb.width) as i128),
        height: fit(plus(content.height, pb.height) as i128),
    }
}

/// Without a ratio the axes are independent: each is held to its own bounds.
pub proof fn without_a_ratio_axes_are_clamped(size: WideSize, b: Bounds)
    requires
        match (b.min.width, b.max.width) {
            (Some(lo), Some(hi)) => lo <= hi,
            _ => true,
        },
        match (b.min.height, b.max.height) {
            (Some(lo), Some(hi)) => lo <= hi,
            _ => true,
        },
    ensures
        violation(size.width, b.min.width, b.max.width) is Kept || violation(
            size.height,
            b.min.height,
            b.max.height,
        ) is Kept ==> constrained(size, None, b) == (WideSize {
            width: crate::sizing::within(size.width, b.min.width, b.max.width),
            height: crate::sizing::within(size.height, b.min.height, b.max.height),
        }),
{
}

/// The bounds never contradict each other: the upper one gives way to the lower.
pub proof fn bounds_are_ordered(
    style: BoxStyle,
    parent: MaybeSize,
    space: Spaces,
    padding_border: WideSize,
)
    requires
        style.box_sizing is ContentBox,
    ensures
        ({
            let b = content_bounds(style, parent, space, padding_border);
            match (b.min.width, b.max.width) {
                (Some(lo), Some(hi)) => lo <= hi,
                _ => true,
            }
        }),
{
}

/// A size that keeps to its bounds is left alone, whatever the ratio.
pub proof fn kept_sizes_are_unchanged(size: WideSize, ratio: Option<Ratio>, b: Bounds)
    requires
        violation(size.width, b.min.width, b.max.width) is Kept,
        violation(size.height, b.min.height, b.max.height) is Kept,
    ensures
        constrained(size, ratio, b) == size,
{
}

/// The width that a text control has by itself: in several lines the columns it shows, which
/// are given in millionths, at six tenths of the font size each, in one line at most 300 px of the space there is.
pub open spec fn control_width(
    cols: Option<u64>,
    multiline: bool,
    font_size: i32,
    space: Space,
) -> int {
    if multiline {
        match cols {
            Some(c) => fitted(nearest(3 * (c * font_size), 5_000_000)),
            None => 19_200,
        }
    } else {
        match space {
            Space::Definite(limit) => if limit < 19_200 {
                limit as int
            } else {
                19_200
            },
            Space::MinContent => 0,
            Space::MaxContent => 19_200,
        }
    }
}

/// The content size of a text control. Its min-content width is the style's where that
/// is given, with a percentage taken of nothing.
pub open spec fn text_control(
    rows: u64,
    cols: Option<u64>,
    multiline: bool,
    font_size: i32,
    line_height: i32,
    style: BoxStyle,
    space: Space,
) -> Size {
    let width = if space is MinContent && !(style.size.width is Auto) {
        resolved_or_zero(style.size.width, Some(0)) as int
    } else {
        control_width(cols, multiline, font_size, space)
    };
    Size { width: fitted(width) as i32, height: fitted(nearest(rows * line_height, 1_000_000)) as i32 }
}

/// The content size of a text control.
pub fn text_control_size(
    rows: u64,
    cols: Option<u64>,
    multiline: bool,
    font_size: i32,
    line_height: i32,
    style: &BoxStyle,
    space: Space,
) -> (r: Size)
    ensures
        r == text_control(rows, cols, multiline, font_size, line_height, *style, space),
{
    let width: i128 = if matches!(space, Space::MinContent) && !style.size.width.is_auto() {
        resolve_or_zero(style.size.width, Some(0)) as i128
    } else if multiline {
        match cols {
            Some(c) => {
                let (n, f): (i128, i128) = (c as i128, font_size as i128);
                assert(-0x8000_0000_0000_0000_0000_0000 <= n * f
                    <= 0x8000_0000_0000_0000_0000_0000) by (nonlinear_arith)
                    requires
                        0 <= n <= 0xffff_ffff_ffff_ffff,
                        -0x8000_0000 <= f <= 0x7fff_ffff,
                ;
                to_nearest(3 * (n * f), 5_000_000) as i128
            },
            None => 19_200,
        }
    } else {
        match space {
            Space::Definite(limit) => if limit < 19_200 {
                limit as i128
            } else {
                19_200
            },
            Space::MinContent => 0,
            Space::MaxContent => 19_200,
        }
    };
    Size { width: fit(width), height: multiple(rows, line_height, 1_000_000) }
}

/// The side of a checkbox: the smaller of the style's width and height, with a
/// percentage width taken of nothing for the min-content contribution.
pub open spec fn checkbox_side(style: BoxStyle, parent: MaybeSize, space: Space) -> i64 {
    least(
        resolved_or_zero(
            style.size.width,
            if space is MinContent {
                Some(0)
            } else {
                parent.width
            },
        ),
        resolved_or_zero(style.size.height, parent.height),
    )
}

/// The content size of a checkbox or radio button: a square.
pub fn checkbox_size(style: &BoxStyle, parent: MaybeSize, space: Space) -> (r: Size)
    ensures
        r.width == checkbox_side(*style, parent, space),
        r.height == r.width,
{
    let basis: Option<i64> = if matches!(space, Space::MinContent) {
        Some(0)
    } else {
        parent.width
    };
    let side: i64 = least(
        resolve_or_zero(style.size.width, basis),
        resolve_or_zero(style.size.height, parent.height),
    );
    Size { width: side as i32, height: side as i32 }
}

/// `b` is to `a` as `to` is to `from`, to the nearest unit: the products differ by no more
/// than half of what one unit of `b` makes.
pub open spec fn in_proportion(a: int, b: int, from: int, to: int) -> bool {
    -from <= 2 * (b * from - a * to) <= from
}

proof fn lemma_scaled(v: i64, num: u32, den: u32)
    requires
        den > 0,
        v >= 0,
        v * num <= FAR * den,
    ensures
        scale(v, num, den) >= 0,
        in_proportion(v as int, scale(v, num, den) as int, den as int, num as int),
{
    let n = v * num;
    let d = den as int;
    let r = (2 * v * num + d) / (2 * d);
    assert(2 * v * num == 2 * n) by (nonlinear_arith)
        requires
            n == v * num,
    ;
    assert(n >= 0) by (nonlinear_arith)
        requires
            n == v * num,
            v >= 0,
            num >= 0,
    ;
    assert(0 <= r <= FAR && 2 * d * r <= 2 * n + d < 2 * d * r + 2 * d)
        by (nonlinear_arith)
        requires
            d > 0,
            n >= 0,
            n <= FAR * d,
            r == (2 * n + d) / (2 * d),
    ;
    assert(r * d - n == r * den - v * num);
    assert(2 * (r * d) == 2 * d * r) by (nonlinear_arith);
}

/// The style says how the axes of the box relate, or leaves it to a content that does:
/// as `width` to `height`.
pub open spec fn relates(context: ReplacedContext, style: BoxStyle, width: int, height: int) -> bool {
    &&& 0 < width <= u32::MAX
    &&& 0 < height <= u32::MAX
    &&& match style.aspect_ratio {
        Some(q) => q.width == width && q.height == height,
        None => context.inherent_size.width == width && context.inherent_size.height == height,
    }
}

/// Where neither the layout nor the style gives a size, and one of the two attributes does,
/// that axis is the attribute and the other one follows from it in proportion: to the
/// style's ratio, or else to the natural size.
pub proof fn one_attribute_gives_both_axes(
    parent: MaybeSize,
    space: Spaces,
    context: ReplacedContext,
    style: BoxStyle,
    padding_border: WideSize,
    width: int,
    height: int,
)
    requires
        style.size.width is Auto,
        style.size.height is Auto,
        relates(context, style, width, height),
    ensures
        ({
            let size = preferred_size(
                MaybeSize { width: None, height: None },
                parent,
                space,
                context,
                style,
                padding_border,
            );
            match (context.attr_width, context.attr_height) {
                (Some(w), None) => w >= 0 && w * height <= FAR * width
                    ==> size.width == w && in_proportion(
                    w as int,
                    size.height as int,
                    width,
                    height,
                ),
                (None, Some(h)) => h >= 0 && h * width <= FAR * height
                    ==> size.height == h && in_proportion(
                    h as int,
                    size.width as int,
                    height,
                    width,
                ),
                _ => true,
            }
        }),
{
    match (context.attr_width, context.attr_height) {
        (Some(w), None) => {
            if w >= 0 && w * height <= FAR * width {
                lemma_scaled(w as i64, height as u32, width as u32);
            }
        },
        (None, Some(h)) => {
            if h >= 0 && h * width <= FAR * height {
                lemma_scaled(h as i64, width as u32, height as u32);
            }
        },
        _ => {},
    }
}

/// Where the layout gives no size and the style gives the content box a length along one
/// axis, that axis has this length and the other one follows from it in proportion. The
/// attributes do not matter.
pub proof fn one_style_length_gives_both_axes(
    parent: MaybeSize,
    space: Spaces,
    context: ReplacedContext,
    style: BoxStyle,
    padding_border: WideSize,
    width: int,
    height: int,
)
    requires
        style.box_sizing is ContentBox,
        relates(context, style, width, height),
    ensures
        ({
            let size = preferred_size(
                MaybeSize { width: None, height: None },
                parent,
                space,
                context,
                style,
                padding_border,
            );
            match (style.size.width, style.size.height) {
                (Dimension::Length(w), Dimension::Auto) => w >= 0 && w * height
                    <= FAR * width ==> size.width == w && in_proportion(
                    w as int,
                    size.height as int,
                    width,
                    height,
                ),
                (Dimension::Auto, Dimension::Length(h)) => h >= 0 && h * width
                    <= FAR * height ==> size.height == h && in_proportion(
                    h as int,
                    size.width as int,
                    height,
                    width,
                ),
                _ => true,
            }
        }),
{
    match (style.size.width, style.size.height) {
        (Dimension::Length(w), Dimension::Auto) => {
            if w >= 0 && w * height <= FAR * width {
                lemma_scaled(w as i64, height as u32, width as u32);
            }
        },
        (Dimension::Auto, Dimension::Length(h)) => {
            if h >= 0 && h * width <= FAR * height {
                lemma_scaled(h as i64, width as u32, height as u32);
            }
        },
        _ => {},
    }
}

/// Where the layout gives the border box along one axis, the content box has what padding
/// and border leave of it, and the other axis follows in proportion. Neither the style's
/// size nor the attributes matter.
pub proof fn one_known_length_gives_both_axes(
    known: MaybeSize,
    parent: MaybeSize,
    space: Spaces,
    context: ReplacedContext,
    style: BoxStyle,
    padding_border: WideSize,
    width: int,
    height: int,
)
    requires
        relates(context, style, width, height),
    ensures
        ({
            let size = preferred_size(known, parent, space, context, style, padding_border);
            match (known.width, known.height) {
                (Some(w), None) => {
                    let v = w - padding_border.width;
                    0 <= v <= FAR && v * height <= FAR * width
                        ==> size.width == v && in_proportion(v, size.height as int, width, height)
                },
                (None, Some(h)) => {
                    let v = h - padding_border.height;
                    0 <= v <= FAR && v * width <= FAR * height
                        ==> size.height == v && in_proportion(v, size.width as int, height, width)
                },
                _ => true,
            }
        }),
{
    match (known.width, known.height) {
        (Some(w), None) => {
            let v = w - padding_border.width;
            if 0 <= v <= FAR && v * height <= FAR * width {
                lemma_scaled(v as i64, height as u32, width as u32);
            }
        },
        (None, Some(h)) => {
            let v = h - padding_border.height;
            if 0 <= v <= FAR && v * width <= FAR * height {
                lemma_scaled(v as i64, width as u32, height as u32);
            }
        },
        _ => {},
    }
}

/// Where both axes are given they are taken as they are, whatever the ratio: by the layout
/// before the style, by the style before the attributes. Where nothing gives any, the
/// content has its natural size.
pub proof fn given_axes_are_taken_as_they_are(
    known: MaybeSize,
    parent: MaybeSize,
    space: Spaces,
    context: ReplacedContext,
    style: BoxStyle,
    padding_border: WideSize,
)
    ensures
        ({
            let size = preferred_size(known, parent, space, context, style, padding_border);
            match (known.width, known.height) {
                (Some(w), Some(h)) => {
                    let (v, u) = (w - padding_border.width, h - padding_border.height);
                    0 <= v <= FAR && 0 <= u <= FAR ==> size.width == v
                        && size.height == u
                },
                (None, None) => match (style.size.width, style.size.height) {
                    (Dimension::Length(w), Dimension::Length(h)) => style.box_sizing is ContentBox
                        && w >= 0 && h >= 0 ==> size.width == w && size.height == h,
                    (Dimension::Auto, Dimension::Auto) => match (
                        context.attr_width,
                        context.attr_height,
                    ) {
                        (Some(w), Some(h)) => w >= 0 && h >= 0 ==> size.width == w && size.height
                            == h,
                        (None, None) => {
                            let (w, h) = (
                                context.inherent_size.width,
                                context.inherent_size.height,
                            );
                            w >= 0 && h >= 0 ==> size.width == w && size.height == h
                        },
                        _ => true,
                    },
                    _ => true,
                },
                _ => true,
            }
        }),
{
}

/// The border box is the content box and what padding and border add, where the style sets
/// no bounds and the content fits the space that there is.
pub proof fn an_unbounded_box_has_its_preferred_size(
    known: MaybeSize,
    parent: MaybeSize,
    space: Spaces,
    context: ReplacedContext,
    style: BoxStyle,
)
    requires
        style.box_sizing is ContentBox,
        style.min_size.width is Auto,
        style.min_size.height is Auto,
        style.max_size.width is Auto,
        style.max_size.height is Auto,
        ({
            let pb = Frame::of(style, parent.width).padding_border();
            let size = preferred_size(known, parent, space, context, style, pb);
            &&& match space.width {
                Space::Definite(v) => size.width <= v <= FAR,
                _ => true,
            }
            &&& match space.height {
                Space::Definite(v) => size.height <= v <= FAR,
                _ => true,
            }
            &&& i32::MIN <= size.width + pb.width <= i32::MAX
            &&& i32::MIN <= size.height + pb.height <= i32::MAX
        }),
    ensures
        ({
            let pb = Frame::of(style, parent.width).padding_border();
            let size = preferred_size(known, parent, space, context, style, pb);
            let r = replaced_size(known, parent, space, context, style);
            r.width == size.width + pb.width && r.height == size.height + pb.height
        }),
{
    let pb = Frame::of(style, parent.width).padding_border();
    let size = preferred_size(known, parent, space, context, style, pb);
    let b = content_bounds(style, parent, space, pb);
    assert(b.min.width is None && b.min.height is None);
    kept_sizes_are_unchanged(size, used_ratio(context, style), b);
}

/// A size that is only too wide is cut to the maximal width, and its height follows in
/// proportion unless that is below the minimal height. With the axes exchanged the same
/// holds of one that is only too high.
pub proof fn a_size_over_one_bound_shrinks_in_proportion(size: WideSize, q: Ratio, b: Bounds)
    requires
        q.width > 0,
        q.height > 0,
        match (b.min.width, b.max.width) {
            (Some(lo), Some(hi)) => lo <= hi,
            _ => true,
        },
        match (b.min.height, b.max.height) {
            (Some(lo), Some(hi)) => lo <= hi,
            _ => true,
        },
    ensures
        ({
            let r = constrained(size, Some(q), b);
            &&& match (b.max.width, b.max.height) {
                (Some(w), None) => size.width > w >= 0 && (b.min.height matches Some(lo)
                    ==> size.height >= lo) && w * q.height <= FAR * q.width
                    ==> r.width == w && (in_proportion(
                    w as int,
                    r.height as int,
                    q.width as int,
                    q.height as int,
                ) || b.min.height == Some(r.height)),
                (None, Some(h)) => size.height > h >= 0 && (b.min.width matches Some(lo)
                    ==> size.width >= lo) && h * q.width <= FAR * q.height
                    ==> r.height == h && (in_proportion(
                    h as int,
                    r.width as int,
                    q.height as int,
                    q.width as int,
                ) || b.min.width == Some(r.width)),
                _ => true,
            }
        }),
{
    match (b.max.width, b.max.height) {
        (Some(w), None) => {
            if w >= 0 && w * q.height <= FAR * q.width {
                lemma_scaled(w, q.height, q.width);
            }
        },
        (None, Some(h)) => {
            if h >= 0 && h * q.width <= FAR * q.height {
                lemma_scaled(h, q.width, q.height);
            }
        },
        _ => {},
    }
}

/// A size that is only too narrow is widened to the minimal width, and its height follows
/// in proportion unless that is above the maximal height. With the axes exchanged the same
/// holds of one that is only too low.
pub proof fn a_size_under_one_bound_grows_in_proportion(size: WideSize, q: Ratio, b: Bounds)
    requires
        q.width > 0,
        q.height > 0,
    ensures
        ({
            let r = constrained(size, Some(q), b);
            &&& match (b.min.width, b.min.height) {
                (Some(w), None) => size.width < w && w >= 0 && (b.max.height matches Some(hi)
                    ==> size.height <= hi) && w * q.height <= FAR * q.width
                    ==> r.width == w && (in_proportion(
                    w as int,
                    r.height as int,
                    q.width as int,
                    q.height as int,
                ) || b.max.height == Some(r.height)),
                (None, Some(h)) => size.height < h && h >= 0 && (b.max.width matches Some(hi)
                    ==> size.width <= hi) && h * q.width <= FAR * q.height
                    ==> r.height == h && (in_proportion(
                    h as int,
                    r.width as int,
                    q.height as int,
                    q.width as int,
                ) || b.max.width == Some(r.width)),
                _ => true,
            }
        }),
{
    match (b.min.width, b.min.height) {
        (Some(w), None) => {
            if w >= 0 && w * q.height <= FAR * q.width {
                lemma_scaled(w, q.height, q.width);
            }
        },
        (None, Some(h)) => {
            if h >= 0 && h * q.width <= FAR * q.height {
                lemma_scaled(h, q.width, q.height);
            }
        },
        _ => {},
    }
}

/// Which ratio relates the axes: the style's where it has a usable one; else that of the
/// natural size where both of its axes are positive; else that of the attributes where both
/// are given and positive. A box without any of these has none.
pub proof fn the_ratio_is_the_styles_before_the_contents(context: ReplacedContext, style: BoxStyle)
    ensures
        ({
            let used = used_ratio(context, style);
            let natural = context.inherent_size;
            let by_style = style.aspect_ratio matches Some(q) && q.width > 0 && q.height > 0;
            &&& by_style ==> used == style.aspect_ratio
            &&& !by_style && natural.width > 0 && natural.height > 0 ==> (used matches Some(q)
                && q.width == natural.width && q.height == natural.height)
            &&& !by_style && (natural.width == 0 || natural.height == 0) ==> match (
                context.attr_width,
                context.attr_height,
            ) {
                (Some(w), Some(h)) => w > 0 && h > 0 ==> (used matches Some(q) && q.width == w
                    && q.height == h),
                _ => used is None,
            }
        }),
{
}

/// The size of a text control. One of several lines is as wide as its columns at six tenths
/// of the font size each, and one of a single line is 300 px wide where the space allows
/// it; both are as high as their rows at the line height. Rows and columns are millionths.
pub proof fn text_controls_are_sized_by_rows_and_columns(
    rows: u64,
    cols: Option<u64>,
    multiline: bool,
    font_size: i32,
    line_height: i32,
    style: BoxStyle,
    space: Space,
)
    ensures
        ({
            let r = text_control(rows, cols, multiline, font_size, line_height, style, space);
            let own_width = !(space is MinContent) || style.size.width is Auto;
            &&& i32::MIN < r.height < i32::MAX ==> -500_000 <= 1_000_000 * r.height - rows
                * line_height <= 500_000
            &&& own_width && multiline ==> match cols {
                Some(c) => i32::MIN < r.width < i32::MAX ==> -2_500_000 <= 5_000_000 * r.width - 3
                    * (c * font_size) <= 2_500_000,
                None => r.width == 300 * 64,
            }
            &&& own_width && !multiline ==> match space {
                Space::Definite(limit) => limit >= 300 * 64 ==> r.width == 300 * 64,
                Space::MinContent => r.width == 0,
                Space::MaxContent => r.width == 300 * 64,
            }
            &&& own_width && !multiline ==> match space {
                Space::Definite(limit) => i32::MIN <= limit < 300 * 64 ==> r.width == limit,
                _ => true,
            }
        }),
{
    quotients_are_near(rows * line_height, 1_000_000);
    match cols {
        Some(c) => {
            quotients_are_near(3 * (c * font_size), 5_000_000);
        },
        None => {},
    }
}

} // verus!
