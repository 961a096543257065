//! Sizes that may be open, and how a style's sizes constrain a box.
//!
//! Intermediate lengths have 64 bits and are held to the range of positions after every
//! step, as a sum in px would be to the range of its numbers.

use vstd::prelude::*;

use crate::tree::{BoxSizing, BoxStyle, Overflow, Ratio};
use crate::units::{held, hold, lemma_floor_of_negative, max, min, EdgeDimensions, Edges, FAR};

verus! {

/// The sum of two lengths.
pub open spec fn plus_spec(a: i64, b: i64) -> i64 {
    held(a + b) as i64
}

/// The sum of two lengths.
#[verifier::when_used_as_spec(plus_spec)]
pub fn plus(a: i64, b: i64) -> (r: i64)
    ensures
        r == plus_spec(a, b),
        -FAR <= r <= FAR,
{
    hold(a as i128 + b as i128)
}

/// The difference of two lengths.
pub open spec fn minus_spec(a: i64, b: i64) -> i64 {
    held(a - b) as i64
}

/// The difference of two lengths.
#[verifier::when_used_as_spec(minus_spec)]
pub fn minus(a: i64, b: i64) -> (r: i64)
    ensures
        r == minus_spec(a, b),
        -FAR <= r <= FAR,
{
    hold(a as i128 - b as i128)
}

/// The smaller of two lengths.
pub open spec fn least_spec(a: i64, b: i64) -> i64 {
    if a <= b {
        a
    } else {
        b
    }
}

/// The smaller of two lengths.
#[verifier::when_used_as_spec(least_spec)]
pub fn least(a: i64, b: i64) -> (r: i64)
    ensures
        r == least_spec(a, b),
{
    if a <= b {
        a
    } else {
        b
    }
}

/// The larger of two lengths.
pub open spec fn most_spec(a: i64, b: i64) -> i64 {
    if a >= b {
        a
    } else {
        b
    }
}

/// The larger of two lengths.
#[verifier::when_used_as_spec(most_spec)]
pub fn most(a: i64, b: i64) -> (r: i64)
    ensures
        r == most_spec(a, b),
{
    if a >= b {
        a
    } else {
        b
    }
}

/// `a`, no larger than `b` where there is one.
pub open spec fn at_most_spec(a: i64, b: Option<i64>) -> i64 {
    match b {
        Some(v) => least_spec(a, v),
        None => a,
    }
}

/// `a`, no larger than `b` where there is one.
#[verifier::when_used_as_spec(at_most_spec)]
pub fn at_most(a: i64, b: Option<i64>) -> (r: i64)
    ensures
        r == at_most_spec(a, b),
{
    match b {
        Some(v) => least(a, v),
        None => a,
    }
}

/// `a`, no smaller than `b` where there is one.
pub open spec fn at_least_spec(a: i64, b: Option<i64>) -> i64 {
    match b {
        Some(v) => most_spec(a, v),
        None => a,
    }
}

/// `a`, no smaller than `b` where there is one.
#[verifier::when_used_as_spec(at_least_spec)]
pub fn at_least(a: i64, b: Option<i64>) -> (r: i64)
    ensures
        r == at_least_spec(a, b),
{
    match b {
        Some(v) => most(a, v),
        None => a,
    }
}

/// `v` between the bounds that there are; the lower one wins.
pub open spec fn within_spec(v: i64, lo: Option<i64>, hi: Option<i64>) -> i64 {
    at_least_spec(at_most_spec(v, hi), lo)
}

/// `v` between the bounds that there are; the lower one wins.
#[verifier::when_used_as_spec(within_spec)]
pub fn within(v: i64, lo: Option<i64>, hi: Option<i64>) -> (r: i64)
    ensures
        r == within_spec(v, lo, hi),
{
    at_least(at_most(v, hi), lo)
}

/// An optional 32-bit length as a wider one.
pub open spec fn wide_spec(v: Option<i32>) -> Option<i64> {
    match v {
        Some(x) => Some(x as i64),
        None => None,
    }
}

/// An optional 32-bit length as a wider one.
#[verifier::when_used_as_spec(wide_spec)]
pub fn wide(v: Option<i32>) -> (r: Option<i64>)
    ensures
        r == wide_spec(v),
{
    match v {
        Some(x) => Some(x as i64),
        None => None,
    }
}

/// A size each axis of which may be open.
#[derive(Clone, Copy, PartialEq, Eq, Debug, Structural)]
pub struct MaybeSize {
    pub width: Option<i64>,
    pub height: Option<i64>,
}

/// A size of wide lengths.
#[derive(Clone, Copy, PartialEq, Eq, Debug, Structural)]
pub struct WideSize {
    pub width: i64,
    pub height: i64,
}

/// The space that is available along an axis.
#[derive(Clone, Copy, PartialEq, Eq, Debug, Structural)]
pub enum Space {
    Definite(i64),
    MinContent,
    MaxContent,
}

/// The available space along both axes.
#[derive(Clone, Copy, PartialEq, Eq, Debug, Structural)]
pub struct Spaces {
    pub width: Space,
    pub height: Space,
}

impl Space {
    /// The space where it is definite.
    pub open spec fn definite(self) -> Option<i64> {
        match self {
            Space::Definite(v) => Some(v),
            _ => None,
        }
    }

    /// The space where it is definite.
    pub fn into_option(self) -> (r: Option<i64>)
        ensures
            r == self.definite(),
    {
        match self {
            Space::Definite(v) => Some(v),
            _ => None,
        }
    }
}

/// `a` where there is one, else `b`.
pub open spec fn first_of_spec(a: Option<i64>, b: Option<i64>) -> Option<i64> {
    match a {
        Some(v) => Some(v),
        None => b,
    }
}

/// `a` where there is one, else `b`.
#[verifier::when_used_as_spec(first_of_spec)]
pub fn first_of(a: Option<i64>, b: Option<i64>) -> (r: Option<i64>)
    ensures
        r == first_of_spec(a, b),
{
    match a {
        Some(v) => Some(v),
        None => b,
    }
}

/// An optional length changed by a sum.
pub open spec fn grown_spec(a: Option<i64>, b: i64) -> Option<i64> {
    match a {
        Some(v) => Some(plus_spec(v, b)),
        None => None,
    }
}

/// An optional length changed by a sum.
#[verifier::when_used_as_spec(grown_spec)]
pub fn grown(a: Option<i64>, b: i64) -> (r: Option<i64>)
    ensures
        r == grown_spec(a, b),
{
    match a {
        Some(v) => Some(plus(v, b)),
        None => None,
    }
}

/// An optional length changed by a difference.
pub open spec fn shrunk_spec(a: Option<i64>, b: i64) -> Option<i64> {
    match a {
        Some(v) => Some(minus_spec(v, b)),
        None => None,
    }
}

/// An optional length changed by a difference.
#[verifier::when_used_as_spec(shrunk_spec)]
pub fn shrunk(a: Option<i64>, b: i64) -> (r: Option<i64>)
    ensures
        r == shrunk_spec(a, b),
{
    match a {
        Some(v) => Some(minus(v, b)),
        None => None,
    }
}

/// An optional length between the bounds that there are.
pub open spec fn bounded_spec(a: Option<i64>, lo: Option<i64>, hi: Option<i64>) -> Option<i64> {
    match a {
        Some(v) => Some(within_spec(v, lo, hi)),
        None => None,
    }
}

/// An optional length between the bounds that there are.
#[verifier::when_used_as_spec(bounded_spec)]
pub fn bounded(a: Option<i64>, lo: Option<i64>, hi: Option<i64>) -> (r: Option<i64>)
    ensures
        r == bounded_spec(a, lo, hi),
{
    match a {
        Some(v) => Some(within(v, lo, hi)),
        None => None,
    }
}

/// `v` times `num` over `den`, to the nearest unit.
pub open spec fn scaled(v: int, num: int, den: int) -> int {
    (2 * v * num + den) / (2 * den)
}

/// `v` times `num` over `den`.
pub open spec fn scale_spec(v: i64, num: u32, den: u32) -> i64 {
    held(scaled(v as int, num as int, den as int)) as i64
}

/// `v` times `num` over `den`, to the nearest unit.
#[verifier::when_used_as_spec(scale_spec)]
pub fn scale(v: i64, num: u32, den: u32) -> (r: i64)
    requires
        den > 0,
    ensures
        r == scale_spec(v, num, den),
        -FAR <= r <= FAR,
{
    let n: i128 = 2 * v as i128;
    let k: i128 = num as i128;
    let d: i128 = den as i128;
    assert(-0x1_0000_0000_0000_0000_0000_0000 <= n * k <= 0x1_0000_0000_0000_0000_0000_0000)
        by (nonlinear_arith)
        requires
            -0x1_0000_0000_0000_0000 <= n <= 0x1_0000_0000_0000_0000,
            0 <= k < 0x1_0000_0000,
    ;
    let top: i128 = n * k + d;
    let bottom: i128 = 2 * d;
    if top >= 0 {
        hold(top / bottom)
    } else {
        proof {
            lemma_floor_of_negative(top as int, bottom as int);
        }
        hold(-((-top + bottom - 1) / bottom))
    }
}

impl Ratio {
    /// Both parts are positive: the ratio relates the axes.
    pub open spec fn usable(self) -> bool {
        self.width > 0 && self.height > 0
    }

    /// The ratio where it relates the axes.
    pub open spec fn proper(r: Option<Ratio>) -> Option<Ratio> {
        match r {
            Some(q) => if q.usable() {
                Some(q)
            } else {
                None
            },
            None => None,
        }
    }

    /// The width that goes with `height`.
    pub open spec fn width_for(self, height: i64) -> i64 {
        scale_spec(height, self.width, self.height)
    }

    /// The height that goes with `width`.
    pub open spec fn height_for(self, width: i64) -> i64 {
        scale_spec(width, self.height, self.width)
    }
}

/// The ratio where it relates the axes.
pub fn proper_ratio(r: Option<Ratio>) -> (q: Option<Ratio>)
    ensures
        q == Ratio::proper(r),
{
    match r {
        Some(q) => if q.width > 0 && q.height > 0 {
            Some(q)
        } else {
            None
        },
        None => None,
    }
}

impl MaybeSize {
    /// No size in either axis.
    pub open spec fn open_() -> MaybeSize {
        MaybeSize { width: None, height: None }
    }

    /// The size with an open axis taken from the other one by the ratio.
    pub open spec fn by_ratio(self, ratio: Option<Ratio>) -> MaybeSize {
        match ratio {
            Some(q) => match (self.width, self.height) {
                (Some(w), None) => MaybeSize { width: Some(w), height: Some(q.height_for(w)) },
                (None, Some(h)) => MaybeSize { width: Some(q.width_for(h)), height: Some(h) },
                _ => self,
            },
            None => self,
        }
    }

    /// The size with an open axis taken from the other one by the ratio.
    pub fn apply_ratio(self, ratio: Option<Ratio>) -> (r: MaybeSize)
        requires
            match ratio {
                Some(q) => q.usable(),
                None => true,
            },
        ensures
            r == self.by_ratio(ratio),
    {
        match ratio {
            Some(q) => match (self.width, self.height) {
                (Some(w), None) => MaybeSize {
                    width: Some(w),
                    height: Some(scale(w, q.height, q.width)),
                },
                (None, Some(h)) => MaybeSize {
                    width: Some(scale(h, q.width, q.height)),
                    height: Some(h),
                },
                _ => self,
            },
            None => self,
        }
    }

    /// Each axis grown by `by`.
    pub open spec fn grown_by(self, by: WideSize) -> MaybeSize {
        MaybeSize {
            width: grown_spec(self.width, by.width),
            height: grown_spec(self.height, by.height),
        }
    }

    /// Each axis grown by `by`.
    pub fn grow(self, by: WideSize) -> (r: MaybeSize)
        ensures
            r == self.grown_by(by),
    {
        MaybeSize { width: grown(self.width, by.width), height: grown(self.height, by.height) }
    }

    /// Each axis shrunk by `by`.
    pub open spec fn shrunk_by(self, by: WideSize) -> MaybeSize {
        MaybeSize {
            width: shrunk_spec(self.width, by.width),
            height: shrunk_spec(self.height, by.height),
        }
    }

    /// Each axis shrunk by `by`.
    pub fn shrink(self, by: WideSize) -> (r: MaybeSize)
        ensures
            r == self.shrunk_by(by),
    {
        MaybeSize { width: shrunk(self.width, by.width), height: shrunk(self.height, by.height) }
    }

    /// Each axis where it is given, else that of `other`.
    pub open spec fn or_spec(self, other: MaybeSize) -> MaybeSize {
        MaybeSize {
            width: first_of_spec(self.width, other.width),
            height: first_of_spec(self.height, other.height),
        }
    }

    /// Each axis where it is given, else that of `other`.
    #[verifier::when_used_as_spec(or_spec)]
    pub fn or(self, other: MaybeSize) -> (r: MaybeSize)
        ensures
            r == self.or_spec(other),
    {
        MaybeSize {
            width: first_of(self.width, other.width),
            height: first_of(self.height, other.height),
        }
    }
}

/// A style length over a basis that may be open.
pub open spec fn resolved(d: crate::units::Dimension, basis: Option<i64>) -> Option<i64> {
    match (d, basis) {
        (crate::units::Dimension::Length(v), None) => Some(v as i64),
        (_, Some(b)) => match d.over(b as int) {
            Some(v) => Some(v as i64),
            None => None,
        },
        (_, None) => None,
    }
}

/// A style length over a basis that may be open.
pub fn resolve(d: crate::units::Dimension, basis: Option<i64>) -> (r: Option<i64>)
    ensures
        r == resolved(d, basis),
{
    match basis {
        Some(b) => match d.resolve(b) {
            Some(v) => Some(v as i64),
            None => None,
        },
        None => match d {
            crate::units::Dimension::Length(v) => Some(v as i64),
            _ => None,
        },
    }
}

/// A style length over a basis that may be open, zero where it stays open.
pub open spec fn resolved_or_zero(d: crate::units::Dimension, basis: Option<i64>) -> i64 {
    match resolved(d, basis) {
        Some(v) => v,
        None => 0,
    }
}

/// A style length over a basis that may be open, zero where it stays open.
pub fn resolve_or_zero(d: crate::units::Dimension, basis: Option<i64>) -> (r: i64)
    ensures
        r == resolved_or_zero(d, basis),
        i32::MIN <= r <= i32::MAX,
{
    match basis {
        Some(b) => match d.resolve(b) {
            Some(v) => v as i64,
            None => 0,
        },
        None => match d {
            crate::units::Dimension::Length(v) => v as i64,
            _ => 0,
        },
    }
}

/// The style lengths of the edges over one basis, zero where they stay open.
pub open spec fn resolved_edges(e: EdgeDimensions, basis: Option<i64>) -> Edges {
    Edges {
        left: resolved_or_zero(e.left, basis) as i32,
        right: resolved_or_zero(e.right, basis) as i32,
        top: resolved_or_zero(e.top, basis) as i32,
        bottom: resolved_or_zero(e.bottom, basis) as i32,
    }
}

/// The style lengths of the edges over one basis, zero where they stay open.
pub fn resolve_edges(e: EdgeDimensions, basis: Option<i64>) -> (r: Edges)
    ensures
        r == resolved_edges(e, basis),
{
    Edges {
        left: resolve_or_zero(e.left, basis) as i32,
        right: resolve_or_zero(e.right, basis) as i32,
        top: resolve_or_zero(e.top, basis) as i32,
        bottom: resolve_or_zero(e.bottom, basis) as i32,
    }
}

/// The space that two sets of edges take along both axes.
pub open spec fn edges_size(a: Edges, b: Edges) -> WideSize {
    WideSize {
        width: (a.left + a.right + b.left + b.right) as i64,
        height: (a.top + a.bottom + b.top + b.bottom) as i64,
    }
}

/// The space that two sets of edges take along both axes.
pub fn sum_edges(a: Edges, b: Edges) -> (r: WideSize)
    ensures
        r == edges_size(a, b),
        -0x2_0000_0000 <= r.width <= 0x2_0000_0000,
        -0x2_0000_0000 <= r.height <= 0x2_0000_0000,
{
    WideSize {
        width: a.left as i64 + a.right as i64 + b.left as i64 + b.right as i64,
        height: a.top as i64 + a.bottom as i64 + b.top as i64 + b.bottom as i64,
    }
}

/// Whether a box's own style sizes count.
#[derive(Clone, Copy, PartialEq, Eq, Debug, Structural)]
pub enum SizingMode {
    /// Only what the content asks for.
    ContentSize,
    /// The style's sizes too.
    InherentSize,
}

/// A box's size constraints.
#[derive(Clone, Copy, PartialEq, Eq, Debug, Structural)]
pub struct NodeSizes {
    pub size: MaybeSize,
    pub min: MaybeSize,
    pub max: MaybeSize,
    pub ratio: Option<Ratio>,
}

/// A pair of style lengths over the size of the parent.
pub open spec fn resolved_size(d: crate::units::Dimensions, parent: MaybeSize) -> MaybeSize {
    MaybeSize {
        width: resolved(d.width, parent.width),
        height: resolved(d.height, parent.height),
    }
}

/// A pair of style lengths over the size of the parent.
pub fn resolve_size(d: crate::units::Dimensions, parent: MaybeSize) -> (r: MaybeSize)
    ensures
        r == resolved_size(d, parent),
{
    MaybeSize { width: resolve(d.width, parent.width), height: resolve(d.height, parent.height) }
}

/// A size between the bounds that there are.
pub open spec fn bounded_size(v: MaybeSize, lo: MaybeSize, hi: MaybeSize) -> MaybeSize {
    MaybeSize {
        width: bounded_spec(v.width, lo.width, hi.width),
        height: bounded_spec(v.height, lo.height, hi.height),
    }
}

/// The preferred, minimal and maximal size of a box, as border boxes, over the size of
/// its parent: a known axis stays, another is the style's within its bounds. When only
/// the content counts, the style's sizes do not.
pub open spec fn node_sizes(
    style: BoxStyle,
    known: MaybeSize,
    parent: MaybeSize,
    mode: SizingMode,
    adjustment: WideSize,
) -> NodeSizes {
    match mode {
        SizingMode::ContentSize => NodeSizes {
            size: known,
            min: MaybeSize::open_(),
            max: MaybeSize::open_(),
            ratio: None,
        },
        SizingMode::InherentSize => {
            let ratio = Ratio::proper(style.aspect_ratio);
            let size = resolved_size(style.size, parent).by_ratio(ratio).grown_by(adjustment);
            let lo = resolved_size(style.min_size, parent).by_ratio(ratio).grown_by(adjustment);
            let hi = resolved_size(style.max_size, parent).grown_by(adjustment);
            NodeSizes { size: known.or_spec(bounded_size(size, lo, hi)), min: lo, max: hi, ratio }
        },
    }
}

/// Resolves a box's preferred, minimal and maximal size against the size of its parent.
pub fn resolve_node_sizes(
    style: &BoxStyle,
    known: MaybeSize,
    parent: MaybeSize,
    mode: SizingMode,
    adjustment: WideSize,
) -> (r: NodeSizes)
    ensures
        r == node_sizes(*style, known, parent, mode, adjustment),
{
    match mode {
        SizingMode::ContentSize => NodeSizes {
            size: known,
            min: MaybeSize { width: None, height: None },
            max: MaybeSize { width: None, height: None },
            ratio: None,
        },
        SizingMode::InherentSize => {
            let ratio: Option<Ratio> = proper_ratio(style.aspect_ratio);
            let size: MaybeSize = resolve_size(style.size, parent).apply_ratio(ratio).grow(
                adjustment,
            );
            let lo: MaybeSize = resolve_size(style.min_size, parent).apply_ratio(ratio).grow(
                adjustment,
            );
            let hi: MaybeSize = resolve_size(style.max_size, parent).grow(adjustment);
            let inside = MaybeSize {
                width: bounded(size.width, lo.width, hi.width),
                height: bounded(size.height, lo.height, hi.height),
            };
            NodeSizes { size: known.or(inside), min: lo, max: hi, ratio }
        },
    }
}

/// What a style adds to its sizes to get a border box: padding and border, unless the
/// sizes are those of the border box.
pub open spec fn box_adjustment(style: BoxStyle, padding_border: WideSize) -> WideSize {
    if style.box_sizing is ContentBox {
        padding_border
    } else {
        WideSize { width: 0, height: 0 }
    }
}

/// The space that a box keeps between its border edge and its content: padding, border,
/// and on the far sides what a scrollbar takes. A box that scrolls along one axis has
/// its scrollbar along the other.
#[derive(Clone, Copy, PartialEq, Eq, Debug, Structural)]
pub struct Frame {
    pub padding: Edges,
    pub border: Edges,
    /// Scrollbar space on the right and at the bottom.
    pub gutter: WideSize,
}

impl Frame {
    /// The frame of a box whose containing block is `parent_width` wide.
    pub open spec fn of(style: BoxStyle, parent_width: Option<i64>) -> Frame {
        Frame {
            padding: resolved_edges(style.padding, parent_width),
            border: resolved_edges(style.border, parent_width),
            gutter: WideSize {
                width: if style.overflow_y is Scroll {
                    style.scrollbar_width as i64
                } else {
                    0
                },
                height: if style.overflow_x is Scroll {
                    style.scrollbar_width as i64
                } else {
                    0
                },
            },
        }
    }

    /// Padding and border along both axes.
    pub open spec fn padding_border(self) -> WideSize {
        edges_size(self.padding, self.border)
    }

    /// Padding, border and scrollbars along both axes.
    pub open spec fn inset(self) -> WideSize {
        WideSize {
            width: (self.padding_border().width + self.gutter.width) as i64,
            height: (self.padding_border().height + self.gutter.height) as i64,
        }
    }

    /// Where the content starts, from the border edge.
    pub open spec fn content_left(self) -> int {
        self.padding.left + self.border.left
    }

    /// Where the content starts, from the border edge.
    pub open spec fn content_top(self) -> int {
        self.padding.top + self.border.top
    }

    /// The frame of a box whose containing block is `parent_width` wide.
    pub fn resolve(style: &BoxStyle, parent_width: Option<i64>) -> (r: Frame)
        ensures
            r == Frame::of(*style, parent_width),
            r.small(),
    {
        Frame {
            padding: resolve_edges(style.padding, parent_width),
            border: resolve_edges(style.border, parent_width),
            gutter: WideSize {
                width: if matches!(style.overflow_y, Overflow::Scroll) {
                    style.scrollbar_width as i64
                } else {
                    0
                },
                height: if matches!(style.overflow_x, Overflow::Scroll) {
                    style.scrollbar_width as i64
                } else {
                    0
                },
            },
        }
    }

    /// Scrollbars have 32-bit lengths.
    pub open spec fn small(self) -> bool {
        &&& i32::MIN <= self.gutter.width <= i32::MAX
        &&& i32::MIN <= self.gutter.height <= i32::MAX
    }

    /// Padding and border along both axes.
    pub fn padding_border_size(&self) -> (r: WideSize)
        ensures
            r == self.padding_border(),
            -0x2_0000_0000 <= r.width <= 0x2_0000_0000,
            -0x2_0000_0000 <= r.height <= 0x2_0000_0000,
    {
        sum_edges(self.padding, self.border)
    }

    /// Padding, border and scrollbars along both axes.
    pub fn inset_size(&self) -> (r: WideSize)
        requires
            self.small(),
        ensures
            r == self.inset(),
            -0x4_0000_0000 <= r.width <= 0x4_0000_0000,
            -0x4_0000_0000 <= r.height <= 0x4_0000_0000,
    {
        let pb: WideSize = sum_edges(self.padding, self.border);
        WideSize { width: pb.width + self.gutter.width, height: pb.height + self.gutter.height }
    }
}

/// What a style adds to its sizes to get a border box.
pub fn box_sizing_adjustment(style: &BoxStyle, padding_border: WideSize) -> (r: WideSize)
    ensures
        r == box_adjustment(*style, padding_border),
{
    if matches!(style.box_sizing, BoxSizing::ContentBox) {
        padding_border
    } else {
        WideSize { width: 0, height: 0 }
    }
}

/// A known axis is never changed, and otherwise the size keeps to its bounds: it is
/// never below the minimum, and above the maximum only where the minimum is.
pub proof fn node_size_keeps_its_bounds(
    style: BoxStyle,
    known: MaybeSize,
    parent: MaybeSize,
    adjustment: WideSize,
)
    ensures
        ({
            let n = node_sizes(style, known, parent, SizingMode::InherentSize, adjustment);
            &&& known.width is Some ==> n.size.width == known.width
            &&& known.height is Some ==> n.size.height == known.height
            &&& match (known.width, n.size.width, n.min.width) {
                (None, Some(w), Some(lo)) => w >= lo,
                _ => true,
            }
            &&& match (known.width, n.size.width, n.min.width, n.max.width) {
                (None, Some(w), Some(lo), Some(hi)) => w <= max(lo as int, hi as int),
                (None, Some(w), None, Some(hi)) => w <= hi,
                _ => true,
            }
        }),
{
}

/// A ratio gives an open axis a length in proportion to the other one, off by no more than half
/// a unit of it, as long as that is within the range of positions. Given axes stay.
pub proof fn open_axes_are_in_proportion(size: MaybeSize, q: Ratio)
    requires
        q.usable(),
    ensures
        ({
            let r = size.by_ratio(Some(q));
            &&& size.width is Some ==> r.width == size.width
            &&& size.height is Some ==> r.height == size.height
            &&& size.width is Some && size.height is None ==> r.height is Some && (-FAR
                < r.height->Some_0 < FAR ==> -q.width <= 2 * (r.height->Some_0 * q.width
                - size.width->Some_0 * q.height) <= q.width)
            &&& size.width is None && size.height is Some ==> r.width is Some && (-FAR
                < r.width->Some_0 < FAR ==> -q.height <= 2 * (r.width->Some_0 * q.height
                - size.height->Some_0 * q.width) <= q.height)
            &&& size.width is None && size.height is None ==> r.width is None && r.height is None
            &&& size.by_ratio(None) == size
        }),
{
    if size.width is Some {
        lemma_scaled_is_near(size.width->Some_0 as int, q.height as int, q.width as int);
    }
    if size.height is Some {
        lemma_scaled_is_near(size.height->Some_0 as int, q.width as int, q.height as int);
    }
}

proof fn lemma_scaled_is_near(v: int, num: int, den: int)
    requires
        den > 0,
    ensures
        -den <= 2 * (scaled(v, num, den) * den - v * num) <= den,
{
    let r = scaled(v, num, den);
    let n = 2 * v * num + den;
    assert(2 * den * r <= n < 2 * den * r + 2 * den) by (nonlinear_arith)
        requires
            den > 0,
            r == n / (2 * den),
    ;
    assert(2 * (r * den) == 2 * den * r) by (nonlinear_arith);
    assert(2 * v * num == 2 * (v * num)) by (nonlinear_arith);
}

/// A length that a style gives is that of the border box, or of the content box with padding
/// and border to be added, as `box-sizing` says. A known axis stays as it is known, and no
/// style size counts where only the content does.
pub proof fn style_sizes_make_border_boxes(
    style: BoxStyle,
    known: MaybeSize,
    parent: MaybeSize,
    around: WideSize,
    w: i32,
    h: i32,
)
    requires
        style.size.width == crate::units::Dimension::Length(w),
        style.size.height == crate::units::Dimension::Length(h),
        style.min_size.width is Auto,
        style.min_size.height is Auto,
        style.max_size.width is Auto,
        style.max_size.height is Auto,
        -0x2_0000_0000 <= around.width <= 0x2_0000_0000,
        -0x2_0000_0000 <= around.height <= 0x2_0000_0000,
    ensures
        ({
            let r = node_sizes(
                style,
                known,
                parent,
                SizingMode::InherentSize,
                box_adjustment(style, around),
            ).size;
            let (dx, dy) = if style.box_sizing == BoxSizing::BorderBox {
                (0, 0)
            } else {
                (around.width as int, around.height as int)
            };
            &&& r.width is Some && r.width->Some_0 == (if known.width is Some {
                known.width->Some_0 as int
            } else {
                w + dx
            })
            &&& r.height is Some && r.height->Some_0 == (if known.height is Some {
                known.height->Some_0 as int
            } else {
                h + dy
            })
            &&& node_sizes(style, known, parent, SizingMode::ContentSize, around).size == known
        }),
{
}

/// A size that is not known lies between the bounds of its style, and where they are at odds it
/// is no less than the lower one.
pub proof fn sizes_keep_their_bounds(
    style: BoxStyle,
    known: MaybeSize,
    parent: MaybeSize,
    around: WideSize,
)
    requires
        known.width is None,
        known.height is None,
    ensures
        ({
            let r = node_sizes(style, known, parent, SizingMode::InherentSize, around);
            &&& r.size.width is Some && r.min.width is Some ==> r.size.width->Some_0
                >= r.min.width->Some_0
            &&& r.size.height is Some && r.min.height is Some ==> r.size.height->Some_0
                >= r.min.height->Some_0
            &&& r.size.width is Some && r.max.width is Some ==> r.size.width->Some_0
                <= r.max.width->Some_0 || r.min.width == r.size.width
            &&& r.size.height is Some && r.max.height is Some ==> r.size.height->Some_0
                <= r.max.height->Some_0 || r.min.height == r.size.height
        }),
{
}

/// The space around content is that of the padding and the border on both sides, and of a
/// scrollbar across the axis that scrolls. Content starts past the near padding and border.
pub proof fn frames_surround_their_content(style: BoxStyle, parent_width: Option<i64>)
    ensures
        ({
            let f = Frame::of(style, parent_width);
            let bar = style.scrollbar_width as int;
            &&& f.inset().width == f.padding.left + f.padding.right + f.border.left
                + f.border.right + (if style.overflow_y == Overflow::Scroll {
                bar
            } else {
                0
            })
            &&& f.inset().height == f.padding.top + f.padding.bottom + f.border.top
                + f.border.bottom + (if style.overflow_x == Overflow::Scroll {
                bar
            } else {
                0
            })
            &&& f.content_left() == f.border.left + f.padding.left
            &&& f.content_top() == f.border.top + f.padding.top
            &&& match style.padding.left {
                crate::units::Dimension::Auto => f.padding.left == 0,
                crate::units::Dimension::Length(v) => f.padding.left == v,
                _ => true,
            }
            &&& match style.padding.right {
                crate::units::Dimension::Auto => f.padding.right == 0,
                crate::units::Dimension::Length(v) => f.padding.right == v,
                _ => true,
            }
            &&& match style.padding.top {
                crate::units::Dimension::Auto => f.padding.top == 0,
                crate::units::Dimension::Length(v) => f.padding.top == v,
                _ => true,
            }
            &&& match style.padding.bottom {
                crate::units::Dimension::Auto => f.padding.bottom == 0,
                crate::units::Dimension::Length(v) => f.padding.bottom == v,
                _ => true,
            }
            &&& match style.border.left {
                crate::units::Dimension::Auto => f.border.left == 0,
                crate::units::Dimension::Length(v) => f.border.left == v,
                _ => true,
            }
            &&& match style.border.right {
                crate::units::Dimension::Auto => f.border.right == 0,
                crate::units::Dimension::Length(v) => f.border.right == v,
                _ => true,
            }
            &&& match style.border.top {
                crate::units::Dimension::Auto => f.border.top == 0,
                crate::units::Dimension::Length(v) => f.border.top == v,
                _ => true,
            }
            &&& match style.border.bottom {
                crate::units::Dimension::Auto => f.border.bottom == 0,
                crate::units::Dimension::Length(v) => f.border.bottom == v,
                _ => true,
            }
        }),
{
}

} // verus!
