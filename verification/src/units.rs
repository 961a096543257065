//! Lengths and the shapes made of them.
//!
//! A length is a whole number of layout units, 64 to a CSS px: fine enough that two
//! different lengths are never the same point, and exact under addition. Lengths that
//! a box carries have 32 bits; positions, which add up the lengths of many boxes, have
//! 64 and are held to a range that leaves room for one more sum.

use vstd::prelude::*;

verus! {

/// Layout units per CSS px.
pub const UNITS_PER_PX: i32 = 64;

/// The range that positions are held to, on both sides of zero.
pub const FAR: i64 = 0x1000_0000_0000_0000;

/// The denominator of percentages: a percentage is a count of millionths.
pub const WHOLE: i32 = 1_000_000;

/// The smaller of two numbers.
pub open spec fn min(a: int, b: int) -> int {
    if a <= b {
        a
    } else {
        b
    }
}

/// The larger of two numbers.
pub open spec fn max(a: int, b: int) -> int {
    if a >= b {
        a
    } else {
        b
    }
}

/// `v` held to the range from `lo` to `hi`; `lo` wins where the range is empty.
pub open spec fn clamped(v: int, lo: int, hi: int) -> int {
    max(min(v, hi), lo)
}

/// A position held to its range.
pub open spec fn held(v: int) -> int {
    clamped(v, -FAR as int, FAR as int)
}

/// A length held to 32 bits.
pub open spec fn fitted(v: int) -> int {
    clamped(v, i32::MIN as int, i32::MAX as int)
}

/// The smaller of two lengths.
pub fn min_i32(a: i32, b: i32) -> (r: i32)
    ensures
        r == min(a as int, b as int),
{
    if a <= b {
        a
    } else {
        b
    }
}

/// The larger of two lengths.
pub fn max_i32(a: i32, b: i32) -> (r: i32)
    ensures
        r == max(a as int, b as int),
{
    if a >= b {
        a
    } else {
        b
    }
}

/// The smaller of two positions.
pub fn min_i64(a: i64, b: i64) -> (r: i64)
    ensures
        r == min(a as int, b as int),
{
    if a <= b {
        a
    } else {
        b
    }
}

/// The larger of two positions.
pub fn max_i64(a: i64, b: i64) -> (r: i64)
    ensures
        r == max(a as int, b as int),
{
    if a >= b {
        a
    } else {
        b
    }
}

/// `v` held to the range from `lo` to `hi`; `lo` wins where the range is empty.
pub fn clamp_i64(v: i64, lo: i64, hi: i64) -> (r: i64)
    ensures
        r == clamped(v as int, lo as int, hi as int),
{
    max_i64(min_i64(v, hi), lo)
}

/// A position held to its range.
pub fn hold(v: i128) -> (r: i64)
    ensures
        r == held(v as int),
        -FAR <= r <= FAR,
{
    if v > FAR as i128 {
        FAR
    } else if v < -(FAR as i128) {
        -FAR
    } else {
        v as i64
    }
}

/// A length held to 32 bits.
pub fn fit(v: i128) -> (r: i32)
    ensures
        r == fitted(v as int),
{
    if v > i32::MAX as i128 {
        i32::MAX
    } else if v < i32::MIN as i128 {
        i32::MIN
    } else {
        v as i32
    }
}

/// A pair of lengths along the two axes.
#[derive(Clone, Copy, PartialEq, Eq, Debug, Structural)]
pub struct Size {
    pub width: i32,
    pub height: i32,
}

/// A pair of offsets along the two axes.
#[derive(Clone, Copy, PartialEq, Eq, Debug, Structural)]
pub struct Offset {
    pub x: i32,
    pub y: i32,
}

/// The four edges of a box.
#[derive(Clone, Copy, PartialEq, Eq, Debug, Structural)]
pub struct Edges {
    pub left: i32,
    pub right: i32,
    pub top: i32,
    pub bottom: i32,
}

/// A position.
#[derive(Clone, Copy, PartialEq, Eq, Debug, Structural)]
pub struct Point {
    pub x: i64,
    pub y: i64,
}

/// An upright rectangle by its position and its size.
#[derive(Clone, Copy, PartialEq, Eq, Debug, Structural)]
pub struct Rect {
    pub x: i64,
    pub y: i64,
    pub width: i64,
    pub height: i64,
}

impl Point {
    /// The position is inside the range of positions.
    pub open spec fn in_range(self) -> bool {
        -FAR <= self.x <= FAR && -FAR <= self.y <= FAR
    }

    /// The position moved by `(dx, dy)`.
    pub open spec fn moved(self, dx: int, dy: int) -> Point {
        Point { x: held(self.x + dx) as i64, y: held(self.y + dy) as i64 }
    }

    /// The position moved by `(dx, dy)`.
    pub fn shift(self, dx: i64, dy: i64) -> (r: Point)
        ensures
            r == self.moved(dx as int, dy as int),
            r.in_range(),
    {
        Point { x: hold(self.x as i128 + dx as i128), y: hold(self.y as i128 + dy as i128) }
    }
}

impl Rect {
    /// The rectangle covers nothing.
    pub open spec fn empty(self) -> bool {
        self.width <= 0 || self.height <= 0
    }

    /// The right edge.
    pub open spec fn right(self) -> int {
        self.x + self.width
    }

    /// The bottom edge.
    pub open spec fn bottom(self) -> int {
        self.y + self.height
    }

    /// Position, size and far edges are inside the range of positions.
    pub open spec fn in_range(self) -> bool {
        &&& -FAR <= self.x <= FAR
        &&& -FAR <= self.y <= FAR
        &&& -FAR <= self.right() <= FAR
        &&& -FAR <= self.bottom() <= FAR
    }

    /// The smallest rectangle that covers both; an empty one adds nothing.
    pub open spec fn joined(self, other: Rect) -> Rect {
        if self.empty() {
            other
        } else if other.empty() {
            self
        } else {
            let x = min(self.x as int, other.x as int);
            let y = min(self.y as int, other.y as int);
            Rect {
                x: x as i64,
                y: y as i64,
                width: (max(self.right(), other.right()) - x) as i64,
                height: (max(self.bottom(), other.bottom()) - y) as i64,
            }
        }
    }

    /// The smallest rectangle that covers both; an empty one adds nothing.
    pub fn union(self, other: Rect) -> (r: Rect)
        requires
            self.in_range(),
            other.in_range(),
        ensures
            r == self.joined(other),
            r.in_range(),
    {
        if self.width <= 0 || self.height <= 0 {
            other
        } else if other.width <= 0 || other.height <= 0 {
            self
        } else {
            let x: i64 = min_i64(self.x, other.x);
            let y: i64 = min_i64(self.y, other.y);
            let right: i64 = max_i64(self.x + self.width, other.x + other.width);
            let bottom: i64 = max_i64(self.y + self.height, other.y + other.height);
            Rect { x, y, width: right - x, height: bottom - y }
        }
    }

    /// The rectangle between two corners, which are held to the range of positions.
    pub open spec fn between(left: int, top: int, right: int, bottom: int) -> Rect {
        Rect {
            x: held(left) as i64,
            y: held(top) as i64,
            width: (held(right) - held(left)) as i64,
            height: (held(bottom) - held(top)) as i64,
        }
    }

    /// The rectangle between two corners.
    pub fn from_corners(left: i128, top: i128, right: i128, bottom: i128) -> (r: Rect)
        ensures
            r == Rect::between(left as int, top as int, right as int, bottom as int),
            r.in_range(),
            r.right() == held(right as int),
            r.bottom() == held(bottom as int),
    {
        let l: i64 = hold(left);
        let t: i64 = hold(top);
        Rect { x: l, y: t, width: hold(right) - l, height: hold(bottom) - t }
    }

    /// The rectangle moved by `(dx, dy)`.
    pub open spec fn moved(self, dx: int, dy: int) -> Rect {
        Rect::between(self.x + dx, self.y + dy, self.right() + dx, self.bottom() + dy)
    }

    /// The rectangle moved by `(dx, dy)`.
    pub fn translate(self, dx: i64, dy: i64) -> (r: Rect)
        requires
            self.in_range(),
        ensures
            r == self.moved(dx as int, dy as int),
            r.in_range(),
    {
        Rect::from_corners(
            self.x as i128 + dx as i128,
            self.y as i128 + dy as i128,
            self.x as i128 + self.width as i128 + dx as i128,
            self.y as i128 + self.height as i128 + dy as i128,
        )
    }
}

/// The union covers both rectangles.
pub proof fn union_covers_both(a: Rect, b: Rect)
    requires
        a.in_range(),
        b.in_range(),
    ensures
        !a.empty() ==> a.joined(b).x <= a.x && a.joined(b).y <= a.y && a.joined(b).right()
            >= a.right() && a.joined(b).bottom() >= a.bottom(),
        !b.empty() ==> a.joined(b).x <= b.x && a.joined(b).y <= b.y && a.joined(b).right()
            >= b.right() && a.joined(b).bottom() >= b.bottom(),
{
}

/// The share that a percentage (in millionths) takes of `basis`, to the nearest unit.
pub open spec fn share(percent: int, basis: int) -> int {
    (2 * percent * basis + WHOLE) / (2 * WHOLE)
}

fn share_of(percent: i32, basis: i64) -> (r: i128)
    ensures
        r == share(percent as int, basis as int),
{
    let p: i128 = 2 * (percent as i128);
    let b: i128 = basis as i128;
    assert(-0x1_0000_0000_0000_0000_0000_0000 <= p * b <= 0x1_0000_0000_0000_0000_0000_0000)
        by (nonlinear_arith)
        requires
            -0x1_0000_0000 <= p <= 0x1_0000_0000,
            -0x8000_0000_0000_0000 <= b <= 0x8000_0000_0000_0000,
    ;
    let num: i128 = p * b + WHOLE as i128;
    let den: i128 = 2 * WHOLE as i128;
    proof {
        assert(p * b == 2 * percent * basis) by (nonlinear_arith)
            requires
                p == 2 * percent,
                b == basis,
        ;
    }
    if num >= 0 {
        num / den
    } else {
        let q: i128 = (-num + den - 1) / den;
        proof {
            lemma_floor_of_negative(num as int, den as int);
        }
        -q
    }
}

/// Division that rounds down, of a negative number by a positive one.
pub proof fn lemma_floor_of_negative(num: int, den: int)
    requires
        num < 0,
        den > 0,
    ensures
        num / den == -((-num + den - 1) / den),
{
    let q = (-num + den - 1) / den;
    let r = (-num + den - 1) % den;
    vstd::arithmetic::div_mod::lemma_fundamental_div_mod(-num + den - 1, den);
    assert(num == den * (-q) + (den - 1 - r)) by (nonlinear_arith)
        requires
            -num + den - 1 == den * q + r,
    ;
    vstd::arithmetic::div_mod::lemma_fundamental_div_mod_converse(num, den, -q, den - 1 - r);
}

/// A length as a style gives it: `auto`, or a number of units plus a percentage of a
/// basis that layout supplies.
#[derive(Clone, Copy, PartialEq, Eq, Debug, Structural)]
pub enum Dimension {
    Auto,
    Length(i32),
    Percent(i32),
    /// `calc()`: units and a percentage.
    Calc { length: i32, percent: i32 },
}

impl Dimension {
    /// The length over a definite basis, or `None` for `auto`.
    pub open spec fn over(self, basis: int) -> Option<int> {
        match self {
            Dimension::Auto => None,
            Dimension::Length(v) => Some(v as int),
            Dimension::Percent(p) => Some(fitted(share(p as int, basis))),
            Dimension::Calc { length, percent } => Some(
                fitted(length + share(percent as int, basis)),
            ),
        }
    }

    /// The length over a basis that may be indefinite, where a percentage has none.
    pub open spec fn maybe_over(self, basis: Option<int>) -> Option<int> {
        match (self, basis) {
            (Dimension::Length(v), None) => Some(v as int),
            (_, Some(b)) => self.over(b),
            (_, None) => None,
        }
    }

    /// The length over a basis that may be indefinite, zero where it has none.
    pub open spec fn or_zero(self, basis: Option<int>) -> int {
        match self.maybe_over(basis) {
            Some(v) => v,
            None => 0,
        }
    }

    /// Whether the dimension is `auto`.
    pub fn is_auto(self) -> (r: bool)
        ensures
            r == (self is Auto),
    {
        matches!(self, Dimension::Auto)
    }

    /// The length over a definite basis, or `None` for `auto`.
    pub fn resolve(self, basis: i64) -> (r: Option<i32>)
        ensures
            match r {
                Some(v) => self.over(basis as int) == Some(v as int),
                None => self.over(basis as int) is None,
            },
    {
        match self {
            Dimension::Auto => None,
            Dimension::Length(v) => Some(v),
            Dimension::Percent(p) => Some(fit(share_of(p, basis))),
            Dimension::Calc { length, percent } => {
                let s: i128 = share_of(percent, basis);
                proof {
                    lemma_share_bound(percent as int, basis as int);
                }
                Some(fit(length as i128 + s))
            },
        }
    }

    /// The length over a basis that may be indefinite.
    pub fn maybe_resolve(self, basis: Option<i32>) -> (r: Option<i32>)
        ensures
            match r {
                Some(v) => self.maybe_over(opt(basis)) == Some(v as int),
                None => self.maybe_over(opt(basis)) is None,
            },
    {
        match basis {
            Some(b) => self.resolve(b as i64),
            None => match self {
                Dimension::Length(v) => Some(v),
                _ => None,
            },
        }
    }

    /// The length over a basis that may be indefinite, zero where it has none.
    pub fn resolve_or_zero(self, basis: Option<i32>) -> (r: i32)
        ensures
            r == self.or_zero(opt(basis)),
    {
        match self.maybe_resolve(basis) {
            Some(v) => v,
            None => 0,
        }
    }
}

/// An optional length as an optional integer.
pub open spec fn opt(v: Option<i32>) -> Option<int> {
    match v {
        Some(x) => Some(x as int),
        None => None,
    }
}

proof fn lemma_share_bound(percent: int, basis: int)
    requires
        i32::MIN <= percent <= i32::MAX,
        i64::MIN <= basis <= i64::MAX,
    ensures
        -0x1_0000_0000_0000_0000_0000_0000 <= share(percent, basis)
            <= 0x1_0000_0000_0000_0000_0000_0000,
{
    let n = 2 * percent * basis + WHOLE;
    assert(-0x1_0000_0000_0000_0000_0000_0000 <= 2 * percent * basis
        <= 0x1_0000_0000_0000_0000_0000_0000) by (nonlinear_arith)
        requires
            -0x8000_0000 <= percent <= 0x7fff_ffff,
            -0x8000_0000_0000_0000 <= basis <= 0x7fff_ffff_ffff_ffff,
    ;
    let d = 2 * WHOLE;
    assert(d == 2_000_000);
    vstd::arithmetic::div_mod::lemma_fundamental_div_mod(n, d);
    let q = n / d;
    assert(share(percent, basis) == q);
    assert(n == 2_000_000 * q + n % d);
}

/// A pair of style lengths along the two axes.
#[derive(Clone, Copy, PartialEq, Eq, Debug, Structural)]
pub struct Dimensions {
    pub width: Dimension,
    pub height: Dimension,
}

/// The style lengths of the four edges of a box.
#[derive(Clone, Copy, PartialEq, Eq, Debug, Structural)]
pub struct EdgeDimensions {
    pub left: Dimension,
    pub right: Dimension,
    pub top: Dimension,
    pub bottom: Dimension,
}

/// What a style length comes to. A length is itself, a percentage is its share of the basis
/// to the nearest unit, and a sum of both is both; `auto` comes to nothing.
pub proof fn percentages_are_shares_of_their_basis(d: Dimension, basis: int)
    requires
        -0x1000_0000 <= basis <= 0x1000_0000,
    ensures
        match d {
            Dimension::Auto => d.over(basis) is None,
            Dimension::Length(v) => d.over(basis) == Some(v as int),
            Dimension::Percent(p) => d.over(basis) matches Some(v) && (i32::MIN < v < i32::MAX
                ==> -1_000_000 <= 2 * (1_000_000 * v - p * basis) <= 1_000_000),
            Dimension::Calc { length, percent } => d.over(basis) matches Some(v) && (i32::MIN < v
                < i32::MAX ==> -1_000_000 <= 2 * (1_000_000 * (v - length) - percent * basis)
                <= 1_000_000),
        },
        d.maybe_over(None) == (match d {
            Dimension::Length(v) => Some(v as int),
            _ => None,
        }),
{
    match d {
        Dimension::Percent(p) => {
            lemma_share(p as int, basis);
        },
        Dimension::Calc { length, percent } => {
            lemma_share(percent as int, basis);
        },
        _ => {},
    }
}

proof fn lemma_share(percent: int, basis: int)
    ensures
        -1_000_000 <= 2 * (1_000_000 * share(percent, basis) - percent * basis) <= 1_000_000,
{
    let n = percent * basis;
    assert(2 * percent * basis == 2 * n) by (nonlinear_arith)
        requires
            n == percent * basis,
    ;
    assert(share(percent, basis) == (2 * n + 1_000_000) / 2_000_000);
}

} // verus!
