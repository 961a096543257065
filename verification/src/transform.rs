//! Transforms: the resolver that turns a box's transform properties into one matrix, and
//! the arithmetic of such matrices.
//!
//! Factors are counted in 65536ths and rounded to the nearest; angles come in as the factors
//! of their matrix. Transform functions are put together in space, and what they come to is
//! flattened onto the plane.

use vstd::prelude::*;

use crate::tree::{BoxId, LayoutBox, LayoutTree, Transform2D};
use crate::tree::{same_shape, shape_decides_wf};
use crate::units::{
    fit, fitted, held, hold, lemma_floor_of_negative, Dimension, Point, Size, FAR,
};

verus! {

/// One, as a factor.
pub const ONE: i32 = 65536;

/// `n / d` to the nearest whole number, halves up, for a positive `d`.
pub open spec fn nearest(n: int, d: int) -> int {
    (2 * n + d) / (2 * d)
}

/// `n / d` to the nearest whole number, for a `d` other than zero.
pub open spec fn quotient(n: int, d: int) -> int {
    if d > 0 {
        nearest(n, d)
    } else {
        nearest(-n, -d)
    }
}

fn divide(n: i128, d: i128) -> (r: i128)
    requires
        d != 0,
        -0x1000_0000_0000_0000_0000_0000_0000_0000 < n < 0x1000_0000_0000_0000_0000_0000_0000_0000,
        -0x1000_0000_0000_0000_0000_0000_0000_0000 < d < 0x1000_0000_0000_0000_0000_0000_0000_0000,
    ensures
        r == quotient(n as int, d as int),
{
    let (num, den): (i128, i128) = if d > 0 {
        (n, d)
    } else {
        (-n, -d)
    };
    let top: i128 = 2 * num + den;
    let bottom: i128 = 2 * den;
    if top >= 0 {
        top / bottom
    } else {
        proof {
            lemma_floor_of_negative(top as int, bottom as int);
            let q = (-top + bottom - 1) as int / (bottom as int);
            assert(0 <= q <= -top + bottom - 1) by (nonlinear_arith)
                requires
                    q == (-top + bottom - 1) as int / (bottom as int),
                    bottom >= 2,
                    top < 0,
            ;
        }
        let q: i128 = (-top + bottom - 1) / bottom;
        -q
    }
}

/// A sum of two products of a factor with something, in whole units.
pub open spec fn blend(f: int, x: int, g: int, y: int) -> int {
    nearest(f * x + g * y, ONE as int)
}

fn blend_of(f: i32, x: i64, g: i32, y: i64) -> (r: i128)
    ensures
        r == blend(f as int, x as int, g as int, y as int),
        -0x1_0000_0000_0000_0000_0000_0000 <= r <= 0x1_0000_0000_0000_0000_0000_0000,
{
    let (f1, x1, g1, y1): (i128, i128, i128, i128) = (f as i128, x as i128, g as i128, y as i128);
    assert(-0x8000_0000_0000_0000_0000_0000 <= f1 * x1 <= 0x8000_0000_0000_0000_0000_0000)
        by (nonlinear_arith)
        requires
            -0x8000_0000 <= f1 <= 0x7fff_ffff,
            -0x8000_0000_0000_0000 <= x1 <= 0x7fff_ffff_ffff_ffff,
    ;
    assert(-0x8000_0000_0000_0000_0000_0000 <= g1 * y1 <= 0x8000_0000_0000_0000_0000_0000)
        by (nonlinear_arith)
        requires
            -0x8000_0000 <= g1 <= 0x7fff_ffff,
            -0x8000_0000_0000_0000 <= y1 <= 0x7fff_ffff_ffff_ffff,
    ;
    let n: i128 = f1 * x1 + g1 * y1;
    let r: i128 = divide(n, ONE as i128);
    proof {
        let q = (2 * n + 65536) as int / 131072;
        assert(2 * n + 65536 == 131072 * q + (2 * n + 65536) as int % 131072);
    }
    r
}

/// The identity.
pub open spec fn identity() -> Transform2D {
    Transform2D { a: ONE, b: 0, c: 0, d: ONE, tx: 0, ty: 0 }
}

/// A move.
pub open spec fn translation(tx: int, ty: int) -> Transform2D {
    Transform2D { a: ONE, b: 0, c: 0, d: ONE, tx: fitted(tx) as i32, ty: fitted(ty) as i32 }
}

impl Transform2D {
    /// The image of a point.
    pub open spec fn image(self, p: Point) -> Point {
        Point {
            x: held(blend(self.a as int, p.x as int, self.c as int, p.y as int) + self.tx) as i64,
            y: held(blend(self.b as int, p.x as int, self.d as int, p.y as int) + self.ty) as i64,
        }
    }

    /// The image of a point.
    pub fn apply(self, p: Point) -> (r: Point)
        ensures
            r == self.image(p),
            r.in_range(),
    {
        Point {
            x: hold(blend_of(self.a, p.x, self.c, p.y) + self.tx as i128),
            y: hold(blend_of(self.b, p.x, self.d, p.y) + self.ty as i128),
        }
    }

    /// The transform that applies `self` and then `next`.
    pub open spec fn followed_by(self, next: Transform2D) -> Transform2D {
        let (p, q) = (self, next);
        Transform2D {
            a: fitted(blend(q.a as int, p.a as int, q.c as int, p.b as int)) as i32,
            b: fitted(blend(q.b as int, p.a as int, q.d as int, p.b as int)) as i32,
            c: fitted(blend(q.a as int, p.c as int, q.c as int, p.d as int)) as i32,
            d: fitted(blend(q.b as int, p.c as int, q.d as int, p.d as int)) as i32,
            tx: fitted(blend(q.a as int, p.tx as int, q.c as int, p.ty as int) + q.tx) as i32,
            ty: fitted(blend(q.b as int, p.tx as int, q.d as int, p.ty as int) + q.ty) as i32,
        }
    }

    /// The transform that applies `self` and then `next`.
    pub fn compose(self, next: Transform2D) -> (r: Transform2D)
        ensures
            r == self.followed_by(next),
    {
        let (p, q): (Transform2D, Transform2D) = (self, next);
        Transform2D {
            a: fit(blend_of(q.a, p.a as i64, q.c, p.b as i64)),
            b: fit(blend_of(q.b, p.a as i64, q.d, p.b as i64)),
            c: fit(blend_of(q.a, p.c as i64, q.c, p.d as i64)),
            d: fit(blend_of(q.b, p.c as i64, q.d, p.d as i64)),
            tx: fit(blend_of(q.a, p.tx as i64, q.c, p.ty as i64) + q.tx as i128),
            ty: fit(blend_of(q.b, p.tx as i64, q.d, p.ty as i64) + q.ty as i128),
        }
    }

    /// The determinant, in the square of the unit of factors.
    pub open spec fn determinant(self) -> int {
        self.a * self.d - self.b * self.c
    }

    /// The point whose image is nearest to `p`, if the transform can be undone.
    pub open spec fn preimage(self, p: Point) -> Option<Point> {
        let det = self.determinant();
        if det == 0 {
            None
        } else {
            let dx = p.x - self.tx;
            let dy = p.y - self.ty;
            Some(
                Point {
                    x: held(quotient((self.d * dx - self.c * dy) * ONE, det)) as i64,
                    y: held(quotient((self.a * dy - self.b * dx) * ONE, det)) as i64,
                },
            )
        }
    }

    /// The point whose image is nearest to `p`, or `None` where the transform flattens the
    /// plane and cannot be undone.
    pub fn invert(self, p: Point) -> (r: Option<Point>)
        ensures
            r == self.preimage(p),
            match r {
                Some(q) => q.in_range(),
                None => true,
            },
    {
        let (a, b, c, d): (i128, i128, i128, i128) = (
            self.a as i128,
            self.b as i128,
            self.c as i128,
            self.d as i128,
        );
        proof {
            lemma_product(a as int, d as int);
            lemma_product(b as int, c as int);
        }
        let det: i128 = a * d - b * c;
        if det == 0 {
            return None;
        }
        let dx: i128 = p.x as i128 - self.tx as i128;
        let dy: i128 = p.y as i128 - self.ty as i128;
        proof {
            lemma_wide_product(d as int, dx as int);
            lemma_wide_product(c as int, dy as int);
            lemma_wide_product(a as int, dy as int);
            lemma_wide_product(b as int, dx as int);
        }
        let cross_x: i128 = d * dx - c * dy;
        let cross_y: i128 = a * dy - b * dx;
        let nx: i128 = cross_x * 65536;
        let ny: i128 = cross_y * 65536;
        Some(Point { x: hold(divide(nx, det)), y: hold(divide(ny, det)) })
    }
}

proof fn lemma_product(x: int, y: int)
    requires
        -0x8000_0000 <= x <= 0x7fff_ffff,
        -0x8000_0000 <= y <= 0x7fff_ffff,
    ensures
        -0x4000_0000_0000_0000 <= x * y <= 0x4000_0000_0000_0000,
{
    assert(-0x4000_0000_0000_0000 <= x * y <= 0x4000_0000_0000_0000) by (nonlinear_arith)
        requires
            -0x8000_0000 <= x <= 0x7fff_ffff,
            -0x8000_0000 <= y <= 0x7fff_ffff,
    ;
}

proof fn lemma_wide_product(x: int, y: int)
    requires
        -0x8000_0000 <= x <= 0x7fff_ffff,
        -0x1_0000_0000_0000_0000 <= y <= 0x1_0000_0000_0000_0000,
    ensures
        -0x8000_0000_0000_0000_0000_0000 <= x * y <= 0x8000_0000_0000_0000_0000_0000,
{
    assert(-0x8000_0000_0000_0000_0000_0000 <= x * y <= 0x8000_0000_0000_0000_0000_0000)
        by (nonlinear_arith)
        requires
            -0x8000_0000 <= x <= 0x7fff_ffff,
            -0x1_0000_0000_0000_0000 <= y <= 0x1_0000_0000_0000_0000,
    ;
}

/// Composition with the identity changes nothing, on either side.
pub proof fn the_identity_is_neutral(t: Transform2D)
    ensures
        t.followed_by(identity()) == t,
        identity().followed_by(t) == t,
        forall|p: Point| p.in_range() ==> #[trigger] identity().image(p) == p,
{
    lemma_whole_blend();
}

/// Blending with whole factors is exact.
proof fn lemma_whole_blend()
    ensures
        forall|x: int, y: int| #[trigger] blend(ONE as int, x, 0, y) == x,
        forall|x: int, y: int| #[trigger] blend(0, x, ONE as int, y) == y,
        forall|f: int, g: int| #[trigger] blend(f, ONE as int, g, 0) == f,
        forall|f: int, g: int| #[trigger] blend(f, 0, g, ONE as int) == g,
        forall|f: int, g: int| #[trigger] blend(f, 0, g, 0) == 0,
{
    assert forall|x: int, y: int| #[trigger] blend(ONE as int, x, 0, y) == x by {
        assert((2 * (65536 * x + 0 * y) + 65536) / 131072 == x);
    }
    assert forall|x: int, y: int| #[trigger] blend(0, x, ONE as int, y) == y by {
        assert((2 * (0 * x + 65536 * y) + 65536) / 131072 == y);
    }
    assert forall|f: int, g: int| #[trigger] blend(f, ONE as int, g, 0) == f by {
        assert((2 * (f * 65536 + g * 0) + 65536) / 131072 == f);
    }
    assert forall|f: int, g: int| #[trigger] blend(f, 0, g, ONE as int) == g by {
        assert((2 * (f * 0 + g * 65536) + 65536) / 131072 == g);
    }
    assert forall|f: int, g: int| #[trigger] blend(f, 0, g, 0) == 0 by {
        assert((2 * (f * 0 + g * 0) + 65536) / 131072 == 0);
    }
}

/// Undoing a move leads back exactly.
pub proof fn undoing_a_move_leads_back(tx: int, ty: int, p: Point)
    requires
        i32::MIN <= tx <= i32::MAX,
        i32::MIN <= ty <= i32::MAX,
        p.in_range(),
        -FAR <= p.x + tx <= FAR,
        -FAR <= p.y + ty <= FAR,
    ensures
        translation(tx, ty).preimage(translation(tx, ty).image(p)) == Some(p),
{
    lemma_whole_blend();
    let t = translation(tx, ty);
    let q = t.image(p);
    assert(q.x == p.x + tx && q.y == p.y + ty);
    let det = t.determinant();
    assert(det == 65536 * 65536);
    let (dx, dy) = (q.x - t.tx, q.y - t.ty);
    assert(65536 * dx - 0 * dy == 65536 * dx);
    assert(65536 * dy - 0 * dx == 65536 * dy);
    assert((2 * (65536 * dx * 65536) + 4294967296) / 8589934592 == dx);
    assert((2 * (65536 * dy * 65536) + 4294967296) / 8589934592 == dy);
    assert(quotient((t.d * dx - t.c * dy) * ONE, det) == dx);
    assert(quotient((t.a * dy - t.b * dx) * ONE, det) == dy);
}

/// One row of a matrix in space.
#[derive(Clone, Copy, PartialEq, Eq, Debug, Structural)]
pub struct Row {
    pub x: i64,
    pub y: i64,
    pub z: i64,
    pub w: i64,
}

/// A linear map of space with a fourth coordinate for moves and perspective. A position is a
/// row `(x, y, z, 1)`, and its image the sum of the rows `x`, `y`, `z` and `w` that it weighs.
/// Factors, and the last entry of `w`, count in 65536ths. The other entries of `w` are a move
/// in layout units. The last entries of `x`, `y` and `z` are what a unit adds to the fourth
/// coordinate, in 65536ths of a 65536th.
#[derive(Clone, Copy, PartialEq, Eq, Debug, Structural)]
pub struct Transform3D {
    pub x: Row,
    pub y: Row,
    pub z: Row,
    pub w: Row,
}

/// Four products with factors, added up and to the nearest.
pub open spec fn weighed(r: Row, x: i64, y: i64, z: i64, w: i64) -> int {
    held(nearest(r.x * x + r.y * y + r.z * z + r.w * w, ONE as int))
}

impl Row {
    /// No entry is out of range.
    pub open spec fn in_range(self) -> bool {
        &&& -FAR <= self.x <= FAR
        &&& -FAR <= self.y <= FAR
        &&& -FAR <= self.z <= FAR
        &&& -FAR <= self.w <= FAR
    }

    /// The row with its entries held to the range.
    pub open spec fn limited(self) -> Row {
        Row {
            x: held(self.x as int) as i64,
            y: held(self.y as int) as i64,
            z: held(self.z as int) as i64,
            w: held(self.w as int) as i64,
        }
    }

    /// The image of the row.
    pub open spec fn through(self, m: Transform3D) -> Row {
        Row {
            x: weighed(self, m.x.x, m.y.x, m.z.x, m.w.x) as i64,
            y: weighed(self, m.x.y, m.y.y, m.z.y, m.w.y) as i64,
            z: weighed(self, m.x.z, m.y.z, m.z.z, m.w.z) as i64,
            w: weighed(self, m.x.w, m.y.w, m.z.w, m.w.w) as i64,
        }
    }

    fn limit(self) -> (r: Row)
        ensures
            r == self.limited(),
            r.in_range(),
    {
        Row {
            x: hold(self.x as i128),
            y: hold(self.y as i128),
            z: hold(self.z as i128),
            w: hold(self.w as i128),
        }
    }

    fn map(self, m: &Transform3D) -> (r: Row)
        requires
            self.in_range(),
            m.in_range(),
        ensures
            r == self.through(*m),
            r.in_range(),
    {
        Row {
            x: weigh(self, m.x.x, m.y.x, m.z.x, m.w.x),
            y: weigh(self, m.x.y, m.y.y, m.z.y, m.w.y),
            z: weigh(self, m.x.z, m.y.z, m.z.z, m.w.z),
            w: weigh(self, m.x.w, m.y.w, m.z.w, m.w.w),
        }
    }
}

proof fn lemma_far_product(a: int, b: int)
    requires
        -FAR <= a <= FAR,
        -FAR <= b <= FAR,
    ensures
        -0x100_0000_0000_0000_0000_0000_0000_0000 <= a * b
            <= 0x100_0000_0000_0000_0000_0000_0000_0000,
{
    assert(-0x100_0000_0000_0000_0000_0000_0000_0000 <= a * b
        <= 0x100_0000_0000_0000_0000_0000_0000_0000) by (nonlinear_arith)
        requires
            -0x1000_0000_0000_0000 <= a <= 0x1000_0000_0000_0000,
            -0x1000_0000_0000_0000 <= b <= 0x1000_0000_0000_0000,
    ;
}

fn weigh(r: Row, x: i64, y: i64, z: i64, w: i64) -> (v: i64)
    requires
        r.in_range(),
        -FAR <= x <= FAR,
        -FAR <= y <= FAR,
        -FAR <= z <= FAR,
        -FAR <= w <= FAR,
    ensures
        v == weighed(r, x, y, z, w),
        -FAR <= v <= FAR,
{
    proof {
        lemma_far_product(r.x as int, x as int);
        lemma_far_product(r.y as int, y as int);
        lemma_far_product(r.z as int, z as int);
        lemma_far_product(r.w as int, w as int);
    }
    let n: i128 = r.x as i128 * x as i128 + r.y as i128 * y as i128 + r.z as i128 * z as i128
        + r.w as i128 * w as i128;
    hold(divide(n, ONE as i128))
}

impl Transform3D {
    /// No entry is out of range.
    pub open spec fn in_range(self) -> bool {
        self.x.in_range() && self.y.in_range() && self.z.in_range() && self.w.in_range()
    }

    /// The map with its entries held to the range.
    pub open spec fn limited(self) -> Transform3D {
        Transform3D {
            x: self.x.limited(),
            y: self.y.limited(),
            z: self.z.limited(),
            w: self.w.limited(),
        }
    }

    /// The map that applies `self` and then `next`.
    pub open spec fn followed_by(self, next: Transform3D) -> Transform3D {
        Transform3D {
            x: self.x.through(next),
            y: self.y.through(next),
            z: self.z.through(next),
            w: self.w.through(next),
        }
    }

    /// The map that applies `self` and then `next`.
    pub fn compose(self, next: &Transform3D) -> (r: Transform3D)
        requires
            self.in_range(),
            next.in_range(),
        ensures
            r == self.followed_by(*next),
            r.in_range(),
    {
        Transform3D {
            x: self.x.map(next),
            y: self.y.map(next),
            z: self.z.map(next),
            w: self.w.map(next),
        }
    }

    /// What the map does in the plane, without depth and perspective.
    pub open spec fn flattened(self) -> Transform2D {
        Transform2D {
            a: fitted(self.x.x as int) as i32,
            b: fitted(self.x.y as int) as i32,
            c: fitted(self.y.x as int) as i32,
            d: fitted(self.y.y as int) as i32,
            tx: fitted(self.w.x as int) as i32,
            ty: fitted(self.w.y as int) as i32,
        }
    }

    /// What the map does in the plane, without depth and perspective.
    pub fn flatten(self) -> (r: Transform2D)
        ensures
            r == self.flattened(),
    {
        Transform2D {
            a: fit(self.x.x as i128),
            b: fit(self.x.y as i128),
            c: fit(self.y.x as i128),
            d: fit(self.y.y as i128),
            tx: fit(self.w.x as i128),
            ty: fit(self.w.y as i128),
        }
    }
}

/// The map of space that is `t` in every plane parallel to the screen, and moves by `depth`
/// towards the viewer.
pub open spec fn in_space(t: Transform2D, depth: i32) -> Transform3D {
    Transform3D {
        x: Row { x: t.a as i64, y: t.b as i64, z: 0, w: 0 },
        y: Row { x: t.c as i64, y: t.d as i64, z: 0, w: 0 },
        z: Row { x: 0, y: 0, z: ONE as i64, w: 0 },
        w: Row { x: t.tx as i64, y: t.ty as i64, z: depth as i64, w: ONE as i64 },
    }
}

fn lift(t: Transform2D, depth: i32) -> (r: Transform3D)
    ensures
        r == in_space(t, depth),
        r.in_range(),
{
    Transform3D {
        x: Row { x: t.a as i64, y: t.b as i64, z: 0, w: 0 },
        y: Row { x: t.c as i64, y: t.d as i64, z: 0, w: 0 },
        z: Row { x: 0, y: 0, z: ONE as i64, w: 0 },
        w: Row { x: t.tx as i64, y: t.ty as i64, z: depth as i64, w: ONE as i64 },
    }
}

/// One transform function.
#[derive(Clone, Copy, PartialEq, Eq, Debug, Structural)]
pub enum TransformOperation {
    /// A move, with percentages taken of the border box. `z` is a length.
    Translate { x: Dimension, y: Dimension, z: i32 },
    /// A function in the plane without a move: its four factors.
    Linear { a: i32, b: i32, c: i32, d: i32 },
    /// A matrix in the plane, with its translation in layout units.
    Matrix(Transform2D),
    /// Any other function: a turn or a scale in space, a matrix, a perspective.
    Space(Transform3D),
}

/// The transform properties of a box.
pub struct TransformStyle {
    /// `translate`.
    pub translate: Option<TransformOperation>,
    /// `rotate`.
    pub rotate: Option<TransformOperation>,
    /// `scale`.
    pub scale: Option<TransformOperation>,
    /// `transform`.
    pub list: Vec<TransformOperation>,
    /// `transform-origin`, relative to the border box.
    pub origin_x: Dimension,
    pub origin_y: Dimension,
}

/// An optional operation as a sequence.
pub open spec fn optional(op: Option<TransformOperation>) -> Seq<TransformOperation> {
    match op {
        Some(o) => seq![o],
        None => Seq::empty(),
    }
}

impl TransformStyle {
    /// The operations in the order in which they nest: each applies to what the ones after
    /// it have made.
    pub open spec fn all_operations(&self) -> Seq<TransformOperation> {
        optional(self.translate) + optional(self.rotate) + optional(self.scale) + self.list@
    }
}

/// Whether a style sets any of the four transform properties. Such a box contains its
/// fixed and absolutely positioned descendants.
pub fn has_transform(style: &TransformStyle) -> (r: bool)
    ensures
        r == (style.all_operations().len() > 0),
{
    style.list.len() > 0 || style.translate.is_some() || style.rotate.is_some()
        || style.scale.is_some()
}

/// The operations of a style: `translate`, `rotate`, `scale`, then the `transform` list.
fn operations(style: &TransformStyle) -> (r: Vec<TransformOperation>)
    ensures
        r@ == style.all_operations(),
{
    let mut ops: Vec<TransformOperation> = Vec::new();
    if let Some(op) = style.translate {
        ops.push(op);
    }
    if let Some(op) = style.rotate {
        ops.push(op);
    }
    if let Some(op) = style.scale {
        ops.push(op);
    }
    let ghost lead = ops@;
    assert(lead =~= optional(style.translate) + optional(style.rotate) + optional(style.scale));
    let mut i: usize = 0;
    while i < style.list.len()
        invariant
            i <= style.list@.len(),
            ops@ == lead + style.list@.take(i as int),
        decreases style.list@.len() - i,
    {
        ops.push(style.list[i]);
        assert(style.list@.take(i + 1) =~= style.list@.take(i as int).push(style.list@[i as int]));
        i = i + 1;
    }
    assert(style.list@.take(i as int) =~= style.list@);
    ops
}

/// The matrix of one operation over a border box of the size `size`.
pub open spec fn matrix_of(op: TransformOperation, size: Size) -> Transform3D {
    match op {
        TransformOperation::Translate { x, y, z } => in_space(
            translation(
                x.or_zero(Some(size.width as int)),
                y.or_zero(Some(size.height as int)),
            ),
            z,
        ),
        TransformOperation::Linear { a, b, c, d } => in_space(
            Transform2D { a, b, c, d, tx: 0, ty: 0 },
            0,
        ),
        TransformOperation::Matrix(m) => in_space(m, 0),
        TransformOperation::Space(m) => m.limited(),
    }
}

fn operation_matrix(op: TransformOperation, size: Size) -> (r: Transform3D)
    ensures
        r == matrix_of(op, size),
        r.in_range(),
{
    match op {
        TransformOperation::Translate { x, y, z } => lift(
            Transform2D {
                a: ONE,
                b: 0,
                c: 0,
                d: ONE,
                tx: x.resolve_or_zero(Some(size.width)),
                ty: y.resolve_or_zero(Some(size.height)),
            },
            z,
        ),
        TransformOperation::Linear { a, b, c, d } => lift(
            Transform2D { a, b, c, d, tx: 0, ty: 0 },
            0,
        ),
        TransformOperation::Matrix(m) => lift(m, 0),
        TransformOperation::Space(m) => Transform3D {
            x: m.x.limit(),
            y: m.y.limit(),
            z: m.z.limit(),
            w: m.w.limit(),
        },
    }
}

/// The first `n` operations as one: the first applies last. They are put together in space,
/// where one turn can undo another.
pub open spec fn nested(ops: Seq<TransformOperation>, size: Size, n: int) -> Transform3D
    decreases n,
{
    if n <= 0 {
        in_space(identity(), 0)
    } else {
        matrix_of(ops[n - 1], size).followed_by(nested(ops, size, n - 1))
    }
}

/// The transform of a box in its own space: what its operations together do in the plane,
/// around its origin, or none where that changes nothing.
pub open spec fn resolved_transform(style: TransformStyle, size: Size) -> Option<Transform2D> {
    let ops = style.all_operations();
    let matrix = nested(ops, size, ops.len() as int).flattened();
    if matrix == identity() {
        None
    } else {
        let ox = style.origin_x.or_zero(Some(size.width as int));
        let oy = style.origin_y.or_zero(Some(size.height as int));
        Some(
            translation(-ox, -oy).followed_by(matrix).followed_by(translation(ox, oy)),
        )
    }
}

/// The transform of a box of the size `size` in its own space.
pub fn resolve(style: &TransformStyle, size: Size) -> (r: Option<Transform2D>)
    ensures
        r == resolved_transform(*style, size),
{
    let ops: Vec<TransformOperation> = operations(style);
    let mut whole: Transform3D = lift(Transform2D { a: ONE, b: 0, c: 0, d: ONE, tx: 0, ty: 0 }, 0);
    let mut i: usize = 0;
    while i < ops.len()
        invariant
            i <= ops@.len(),
            whole == nested(ops@, size, i as int),
            whole.in_range(),
        decreases ops@.len() - i,
    {
        whole = operation_matrix(ops[i], size).compose(&whole);
        i = i + 1;
    }
    let matrix: Transform2D = whole.flatten();
    if matrix == (Transform2D { a: ONE, b: 0, c: 0, d: ONE, tx: 0, ty: 0 }) {
        return None;
    }
    let ox: i32 = style.origin_x.resolve_or_zero(Some(size.width));
    let oy: i32 = style.origin_y.resolve_or_zero(Some(size.height));
    let there = Transform2D {
        a: ONE,
        b: 0,
        c: 0,
        d: ONE,
        tx: fit(-(ox as i128)),
        ty: fit(-(oy as i128)),
    };
    let back = Transform2D { a: ONE, b: 0, c: 0, d: ONE, tx: ox, ty: oy };
    Some(there.compose(matrix).compose(back))
}

/// In the plane, putting maps together in space comes to the same.
pub proof fn maps_of_the_plane_compose_in_the_plane(p: Transform2D, q: Transform2D, d: i32, e: i32)
    ensures
        in_space(p, d).followed_by(in_space(q, e)).flattened() == p.followed_by(q),
{
    lemma_plane_entry(p.a, p.b, q.a, q.c, 0, q.tx);
    lemma_plane_entry(p.a, p.b, q.b, q.d, 0, q.ty);
    lemma_plane_entry(p.c, p.d, q.a, q.c, 0, q.tx);
    lemma_plane_entry(p.c, p.d, q.b, q.d, 0, q.ty);
    lemma_plane_entry(p.tx, p.ty, q.a, q.c, ONE, q.tx);
    lemma_plane_entry(p.tx, p.ty, q.b, q.d, ONE, q.ty);
    lemma_flat_depth(in_space(p, d).x, p.a, p.b, 0, 0, q, e);
    lemma_flat_depth(in_space(p, d).y, p.c, p.d, 0, 0, q, e);
    lemma_flat_depth(in_space(p, d).w, p.tx, p.ty, d, ONE, q, e);
}

proof fn lemma_flat_depth(
    r: Row,
    x: i32,
    y: i32,
    z: i32,
    w: i32,
    q: Transform2D,
    e: i32,
)
    requires
        r == (Row { x: x as i64, y: y as i64, z: z as i64, w: w as i64 }),
    ensures
        r.through(in_space(q, e)).x == weighed(
            Row { x: x as i64, y: y as i64, z: 0, w: w as i64 },
            q.a as i64,
            q.c as i64,
            0,
            q.tx as i64,
        ),
        r.through(in_space(q, e)).y == weighed(
            Row { x: x as i64, y: y as i64, z: 0, w: w as i64 },
            q.b as i64,
            q.d as i64,
            0,
            q.ty as i64,
        ),
{
    assert(z * 0 == 0);
}

/// An entry of a map of the plane is far from the limits of the range.
proof fn lemma_plane_entry(x: i32, y: i32, f: i32, g: i32, w: i32, t: i32)
    requires
        w == 0 || w == ONE,
    ensures
        weighed(
            Row { x: x as i64, y: y as i64, z: 0, w: w as i64 },
            f as i64,
            g as i64,
            0,
            t as i64,
        ) == blend(f as int, x as int, g as int, y as int) + if w == 0 {
            0
        } else {
            t as int
        },
{
    lemma_product(f as int, x as int);
    lemma_product(g as int, y as int);
    let n = f * x + g * y;
    assert(x * f == f * x) by (nonlinear_arith);
    assert(y * g == g * y) by (nonlinear_arith);
    let moved = if w == 0 {
        0
    } else {
        t as int
    };
    assert(w * t == 65536 * moved);
    assert((2 * (n + 65536 * moved) + 65536) / 131072 == (2 * n + 65536) / 131072 + moved);
}

/// The box with its transform resolved: one that has lost it loses the matrix too.
pub open spec fn with_transform(b: LayoutBox, style: TransformStyle) -> LayoutBox {
    LayoutBox {
        transform: if b.has_transform {
            resolved_transform(style, b.final_layout.size)
        } else {
            None
        },
        ..b
    }
}

/// Resolves the transform of one box in its own space, by its rounded size.
pub fn resolve_box_transform(tree: &mut LayoutTree, id: BoxId, style: &TransformStyle)
    requires
        old(tree).wf(),
        old(tree).has(id),
    ensures
        final(tree).boxes@ == old(tree).boxes@.update(
            id.0 as int,
            with_transform(old(tree).at(id), *style),
        ),
        *final(tree) == (LayoutTree { boxes: final(tree).boxes, ..*old(tree) }),
        final(tree).wf(),
{
    let i: usize = id.index();
    let t: Option<Transform2D> = if tree.boxes[i].has_transform {
        resolve(style, tree.boxes[i].final_layout.size)
    } else {
        None
    };
    tree.boxes[i].transform = t;
    proof {
        assert(tree.boxes@ =~= old(tree).boxes@.update(
            i as int,
            with_transform(old(tree).boxes@[i as int], *style),
        ));
        assert(same_shape(*old(tree), *tree));
        shape_decides_wf(*old(tree), *tree);
    }
}

/// Resolves the transform of every box in its own space, by its rounded size. `styles`
/// holds the transform properties of each box.
pub fn resolve_transforms(tree: &mut LayoutTree, styles: &Vec<TransformStyle>)
    requires
        old(tree).wf(),
        styles@.len() == old(tree).boxes@.len(),
    ensures
        final(tree).boxes@ == Seq::new(
            old(tree).boxes@.len(),
            |i: int| with_transform(old(tree).boxes@[i], styles@[i]),
        ),
        *final(tree) == (LayoutTree { boxes: final(tree).boxes, ..*old(tree) }),
        final(tree).wf(),
{
    let n: usize = tree.boxes.len();
    let mut i: usize = 0;
    while i < n
        invariant
            i <= n == tree.boxes@.len(),
            n == old(tree).boxes@.len() == styles@.len(),
            tree.wf(),
            *tree == (LayoutTree { boxes: tree.boxes, ..*old(tree) }),
            forall|k: int|
                0 <= k < i ==> #[trigger] tree.boxes@[k] == with_transform(
                    old(tree).boxes@[k],
                    styles@[k],
                ),
            forall|k: int| i <= k < n ==> #[trigger] tree.boxes@[k] == old(tree).boxes@[k],
        decreases n - i,
    {
        resolve_box_transform(tree, BoxId(i as u32), &styles[i]);
        i = i + 1;
    }
    assert(tree.boxes@ =~= Seq::new(
        old(tree).boxes@.len(),
        |i: int| with_transform(old(tree).boxes@[i], styles@[i]),
    ));
}

/// A quotient to the nearest whole number is off by no more than half.
pub proof fn quotients_are_near(n: int, d: int)
    requires
        d > 0,
    ensures
        -d <= 2 * (nearest(n, d) * d - n) <= d,
{
    let r = nearest(n, d);
    assert(2 * d * r <= 2 * n + d < 2 * d * r + 2 * d) by (nonlinear_arith)
        requires
            d > 0,
            r == (2 * n + d) / (2 * d),
    ;
    assert(2 * (r * d) == 2 * d * r) by (nonlinear_arith);
}

/// The image of a point is the move of the map and the factors of its columns by the
/// coordinates, to the nearest unit. The origin goes where the move leads.
pub proof fn images_add_up_the_columns(t: Transform2D, p: Point)
    requires
        -0x1_0000_0000_0000 <= p.x <= 0x1_0000_0000_0000,
        -0x1_0000_0000_0000 <= p.y <= 0x1_0000_0000_0000,
        -0x4_0000 <= t.a <= 0x4_0000,
        -0x4_0000 <= t.b <= 0x4_0000,
        -0x4_0000 <= t.c <= 0x4_0000,
        -0x4_0000 <= t.d <= 0x4_0000,
    ensures
        ({
            let q = t.image(p);
            &&& -65536 <= 2 * (65536 * (q.x - t.tx) - (t.a * p.x + t.c * p.y)) <= 65536
            &&& -65536 <= 2 * (65536 * (q.y - t.ty) - (t.b * p.x + t.d * p.y)) <= 65536
        }),
        t.image(Point { x: 0, y: 0 }) == (Point { x: t.tx as i64, y: t.ty as i64 }),
{
    lemma_small_product(t.a as int, p.x as int);
    lemma_small_product(t.c as int, p.y as int);
    lemma_small_product(t.b as int, p.x as int);
    lemma_small_product(t.d as int, p.y as int);
    quotients_are_near(t.a * p.x + t.c * p.y, 65536);
    quotients_are_near(t.b * p.x + t.d * p.y, 65536);
    lemma_whole_blend();
}

proof fn lemma_small_product(f: int, x: int)
    requires
        -0x4_0000 <= f <= 0x4_0000,
        -0x1_0000_0000_0000 <= x <= 0x1_0000_0000_0000,
    ensures
        -0x4_0000_0000_0000_0000 <= f * x <= 0x4_0000_0000_0000_0000,
{
    assert(-0x4_0000_0000_0000_0000 <= f * x <= 0x4_0000_0000_0000_0000) by (nonlinear_arith)
        requires
            -0x4_0000 <= f <= 0x4_0000,
            -0x1_0000_0000_0000 <= x <= 0x1_0000_0000_0000,
    ;
}

/// Two maps one after the other: what the first makes of the origin and of the two
/// directions goes through the second. So the first is the one that is applied first.
pub proof fn the_first_map_is_applied_first(p: Transform2D, q: Transform2D)
    requires
        ({
            let both = p.followed_by(q);
            i32::MIN < both.a < i32::MAX && i32::MIN < both.b < i32::MAX && i32::MIN < both.c
                < i32::MAX && i32::MIN < both.d < i32::MAX && i32::MIN < both.tx < i32::MAX
                && i32::MIN < both.ty < i32::MAX
        }),
    ensures
        ({
            let both = p.followed_by(q);
            let straight = Transform2D { tx: 0, ty: 0, ..q };
            let at = q.image(Point { x: p.tx as i64, y: p.ty as i64 });
            let across = straight.image(Point { x: p.a as i64, y: p.b as i64 });
            let down = straight.image(Point { x: p.c as i64, y: p.d as i64 });
            &&& both.tx == at.x && both.ty == at.y
            &&& both.a == across.x && both.b == across.y
            &&& both.c == down.x && both.d == down.y
        }),
{
}

/// The size of a number, without its sign.
pub open spec fn size_of(v: int) -> int {
    if v < 0 {
        -v
    } else {
        v
    }
}

proof fn lemma_quotient_is_near(n: int, d: int)
    requires
        d != 0,
    ensures
        -size_of(d) <= 2 * (quotient(n, d) * d - n) <= size_of(d),
{
    if d > 0 {
        quotients_are_near(n, d);
    } else {
        quotients_are_near(-n, -d);
        let r = nearest(-n, -d);
        assert(r * (-d) == -(r * d)) by (nonlinear_arith);
    }
}

/// Undoing a map: the point that is found has an image as near to the given one as its
/// rounding to whole units allows, namely by half of what a unit along each axis makes.
pub proof fn undoing_a_map_leads_back(t: Transform2D, p: Point)
    ensures
        ({
            let det = t.a * t.d - t.b * t.c;
            match t.preimage(p) {
                None => det == 0,
                Some(q) => {
                    let ex = t.a * q.x + t.c * q.y - 65536 * (p.x - t.tx);
                    let ey = t.b * q.x + t.d * q.y - 65536 * (p.y - t.ty);
                    &&& det != 0
                    &&& -FAR < q.x < FAR && -FAR < q.y < FAR ==> {
                        &&& -(size_of(t.a as int) + size_of(t.c as int)) <= 2 * ex <= size_of(
                            t.a as int,
                        ) + size_of(t.c as int)
                        &&& -(size_of(t.b as int) + size_of(t.d as int)) <= 2 * ey <= size_of(
                            t.b as int,
                        ) + size_of(t.d as int)
                    }
                },
            }
        }),
{
    let det = t.determinant();
    if det != 0 {
        let dx = p.x - t.tx;
        let dy = p.y - t.ty;
        let nx = (t.d * dx - t.c * dy) * ONE;
        let ny = (t.a * dy - t.b * dx) * ONE;
        let x = quotient(nx, det);
        let y = quotient(ny, det);
        lemma_quotient_is_near(nx, det);
        lemma_quotient_is_near(ny, det);
        let e1 = x * det - nx;
        let e2 = y * det - ny;
        let (a, b, c, d) = (t.a as int, t.b as int, t.c as int, t.d as int);
        lemma_cramer(a, b, c, d, dx, dy, x, y, det, e1, e2);
    }
}

proof fn lemma_cramer(
    a: int,
    b: int,
    c: int,
    d: int,
    dx: int,
    dy: int,
    x: int,
    y: int,
    det: int,
    e1: int,
    e2: int,
)
    requires
        det == a * d - b * c,
        det != 0,
        e1 == x * det - (d * dx - c * dy) * 65536,
        e2 == y * det - (a * dy - b * dx) * 65536,
        -size_of(det) <= 2 * e1 <= size_of(det),
        -size_of(det) <= 2 * e2 <= size_of(det),
    ensures
        ({
            let ex = a * x + c * y - 65536 * dx;
            let ey = b * x + d * y - 65536 * dy;
            &&& -(size_of(a) + size_of(c)) <= 2 * ex <= size_of(a) + size_of(c)
            &&& -(size_of(b) + size_of(d)) <= 2 * ey <= size_of(b) + size_of(d)
        }),
{
    let ex = a * x + c * y - 65536 * dx;
    let ey = b * x + d * y - 65536 * dy;
    let k1 = d * dx - c * dy;
    let k2 = a * dy - b * dx;
    let (xd, yd) = (x * det, y * det);
    assert(a * k1 + c * k2 == det * dx) by (nonlinear_arith)
        requires
            k1 == d * dx - c * dy,
            k2 == a * dy - b * dx,
            det == a * d - b * c,
    ;
    assert(b * k1 + d * k2 == det * dy) by (nonlinear_arith)
        requires
            k1 == d * dx - c * dy,
            k2 == a * dy - b * dx,
            det == a * d - b * c,
    ;
    lemma_solved(det, a, c, x, y, dx, ex, k1, k2, e1, e2);
    lemma_solved(det, b, d, x, y, dy, ey, k1, k2, e1, e2);
    lemma_share(det, ex, a, e1, c, e2);
    lemma_share(det, ey, b, e1, d, e2);
}

proof fn lemma_solved(
    det: int,
    f: int,
    g: int,
    x: int,
    y: int,
    to: int,
    e: int,
    k1: int,
    k2: int,
    e1: int,
    e2: int,
)
    requires
        e == f * x + g * y - 65536 * to,
        f * k1 + g * k2 == det * to,
        x * det == e1 + 65536 * k1,
        y * det == e2 + 65536 * k2,
    ensures
        det * e == f * e1 + g * e2,
{
    let (xd, yd) = (x * det, y * det);
    assert(det * e == f * xd + g * yd - 65536 * (det * to)) by (nonlinear_arith)
        requires
            e == f * x + g * y - 65536 * to,
            xd == x * det,
            yd == y * det,
    ;
    assert(f * xd == f * e1 + 65536 * (f * k1)) by (nonlinear_arith)
        requires
            xd == e1 + 65536 * k1,
    ;
    assert(g * yd == g * e2 + 65536 * (g * k2)) by (nonlinear_arith)
        requires
            yd == e2 + 65536 * k2,
    ;
}

proof fn lemma_part_bound(f: int, e: int, m: int)
    requires
        m >= 0,
        -m <= 2 * e <= m,
    ensures
        -(size_of(f) * m) <= 2 * (f * e) <= size_of(f) * m,
{
    if f >= 0 {
        assert(-(f * m) <= 2 * (f * e) <= f * m) by (nonlinear_arith)
            requires
                f >= 0,
                -m <= 2 * e <= m,
        ;
    } else {
        assert(-(-f * m) <= 2 * (f * e) <= -f * m) by (nonlinear_arith)
            requires
                f < 0,
                -m <= 2 * e <= m,
        ;
    }
}

proof fn lemma_share(det: int, v: int, f: int, e1: int, g: int, e2: int)
    requires
        det != 0,
        det * v == f * e1 + g * e2,
        -size_of(det) <= 2 * e1 <= size_of(det),
        -size_of(det) <= 2 * e2 <= size_of(det),
    ensures
        -(size_of(f) + size_of(g)) <= 2 * v <= size_of(f) + size_of(g),
{
    let m = size_of(det);
    let s = size_of(f) + size_of(g);
    lemma_part_bound(f, e1, m);
    lemma_part_bound(g, e2, m);
    assert(size_of(f) * m + size_of(g) * m == s * m) by (nonlinear_arith)
        requires
            s == size_of(f) + size_of(g),
    ;
    let w = if det > 0 {
        v
    } else {
        -v
    };
    assert(m * w == det * v) by (nonlinear_arith)
        requires
            det > 0 ==> m == det && w == v,
            det < 0 ==> m == -det && w == -v,
            det != 0,
    ;
    assert(-s <= 2 * w <= s) by (nonlinear_arith)
        requires
            m > 0,
            -(s * m) <= 2 * (m * w) <= s * m,
    ;
}

proof fn lemma_opposite_blends(f: int, x: int, g: int, y: int)
    ensures
        0 <= blend(f, x, g, y) + blend(f, -x, g, -y) <= 1,
{
    let n = f * x + g * y;
    assert(f * (-x) + g * (-y) == -n) by (nonlinear_arith)
        requires
            n == f * x + g * y,
    ;
    lemma_nearest_at(n);
    lemma_nearest_at(-n);
}

proof fn lemma_nearest_at(n: int)
    ensures
        nearest(n, ONE as int) == (2 * n + 65536) / 131072,
{
}

proof fn lemma_moved_and_turned(
    style: TransformStyle,
    size: Size,
    x: i32,
    y: i32,
    z: i32,
    a: i32,
    b: i32,
    c: i32,
    d: i32,
)
    requires
        style.scale is None,
        style.list@.len() == 0,
        style.translate == Some(
            TransformOperation::Translate {
                x: Dimension::Length(x),
                y: Dimension::Length(y),
                z,
            },
        ),
        style.rotate == Some(TransformOperation::Linear { a, b, c, d }),
    ensures
        ({
            let ops = style.all_operations();
            nested(ops, size, ops.len() as int).flattened() == (Transform2D {
                a,
                b,
                c,
                d,
                tx: x,
                ty: y,
            })
        }),
{
    let ops = style.all_operations();
    let first = style.translate.unwrap();
    let second = style.rotate.unwrap();
    assert(ops =~= seq![first, second]);
    let linear = Transform2D { a, b, c, d, tx: 0, ty: 0 };
    let mv = translation(x as int, y as int);
    assert(matrix_of(first, size) == in_space(mv, z));
    let one = in_space(mv, z).followed_by(in_space(identity(), 0));
    lemma_neutral_in_space(mv, z);
    assert(nested(ops, size, 0) == in_space(identity(), 0));
    assert(nested(ops, size, 1) == one);
    assert(nested(ops, size, 2) == in_space(linear, 0).followed_by(one));
    maps_of_the_plane_compose_in_the_plane(linear, mv, 0, z);
    lemma_whole_blend();
    assert(linear.followed_by(mv) == (Transform2D { a, b, c, d, tx: x, ty: y }));
}

proof fn lemma_around(m: Transform2D, ox: i32, oy: i32)
    requires
        -0x1_0000 <= m.tx <= 0x1_0000,
        -0x1_0000 <= m.ty <= 0x1_0000,
        -0x1_0000 <= ox <= 0x1_0000,
        -0x1_0000 <= oy <= 0x1_0000,
        -0x1_0000 <= m.a <= 0x1_0000,
        -0x1_0000 <= m.b <= 0x1_0000,
        -0x1_0000 <= m.c <= 0x1_0000,
        -0x1_0000 <= m.d <= 0x1_0000,
    ensures
        ({
            let t = translation(-ox, -oy).followed_by(m).followed_by(
                translation(ox as int, oy as int),
            );
            let to = t.image(Point { x: ox as i64, y: oy as i64 });
            &&& 0 <= to.x - (ox + m.tx) <= 1
            &&& 0 <= to.y - (oy + m.ty) <= 1
            &&& t.a == m.a && t.b == m.b && t.c == m.c && t.d == m.d
        }),
{
    let (a, b, c, d) = (m.a as int, m.b as int, m.c as int, m.d as int);
    lemma_whole_blend();
    lemma_opposite_blends(a, ox as int, c, oy as int);
    lemma_opposite_blends(b, ox as int, d, oy as int);
    lemma_blend_bound(a, -ox, c, -oy);
    lemma_blend_bound(b, -ox, d, -oy);
    lemma_blend_bound(a, ox as int, c, oy as int);
    lemma_blend_bound(b, ox as int, d, oy as int);
    let back = translation(-ox, -oy).followed_by(m);
    assert(back.a == m.a && back.b == m.b && back.c == m.c && back.d == m.d);
    assert(back.tx == blend(a, -ox, c, -oy) + m.tx);
    assert(back.ty == blend(b, -ox, d, -oy) + m.ty);
    let t = back.followed_by(translation(ox as int, oy as int));
    assert(t.tx == back.tx + ox && t.ty == back.ty + oy);
}

/// A box that is moved and turned or scaled: its transform origin goes where the move leads,
/// to the nearest unit, whatever the turn. So the turn is around the origin, and comes before
/// the move.
pub proof fn boxes_turn_around_their_origin(style: TransformStyle, size: Size, t: Transform2D)
    requires
        style.scale is None,
        style.list@.len() == 0,
        resolved_transform(style, size) == Some(t),
    ensures
        match (style.translate, style.rotate, style.origin_x, style.origin_y) {
            (
                Some(TransformOperation::Translate { x: Dimension::Length(x), y: Dimension::Length(y), z }),
                Some(TransformOperation::Linear { a, b, c, d }),
                Dimension::Length(ox),
                Dimension::Length(oy),
            ) => -0x1_0000 <= x <= 0x1_0000 && -0x1_0000 <= y <= 0x1_0000 && -0x1_0000 <= ox
                <= 0x1_0000 && -0x1_0000 <= oy <= 0x1_0000 && -0x1_0000 <= a <= 0x1_0000 && -0x1_0000
                <= b <= 0x1_0000 && -0x1_0000 <= c <= 0x1_0000 && -0x1_0000 <= d <= 0x1_0000 ==> {
                let to = t.image(Point { x: ox as i64, y: oy as i64 });
                &&& 0 <= to.x - (ox + x) <= 1
                &&& 0 <= to.y - (oy + y) <= 1
                &&& t.a == a && t.b == b && t.c == c && t.d == d
            },
            _ => true,
        },
{
    match (style.translate, style.rotate, style.origin_x, style.origin_y) {
        (
            Some(TransformOperation::Translate { x: Dimension::Length(x), y: Dimension::Length(y), z }),
            Some(TransformOperation::Linear { a, b, c, d }),
            Dimension::Length(ox),
            Dimension::Length(oy),
        ) => {
            if -0x1_0000 <= x <= 0x1_0000 && -0x1_0000 <= y <= 0x1_0000 && -0x1_0000 <= ox
                <= 0x1_0000 && -0x1_0000 <= oy <= 0x1_0000 && -0x1_0000 <= a <= 0x1_0000 && -0x1_0000
                <= b <= 0x1_0000 && -0x1_0000 <= c <= 0x1_0000 && -0x1_0000 <= d <= 0x1_0000 {
                lemma_moved_and_turned(style, size, x, y, z, a, b, c, d);
                lemma_around(Transform2D { a, b, c, d, tx: x, ty: y }, ox, oy);
            }
        },
        _ => {},
    }
}

proof fn lemma_blend_bound(f: int, x: int, g: int, y: int)
    requires
        -0x1_0000 <= f <= 0x1_0000,
        -0x1_0000 <= g <= 0x1_0000,
        -0x1_0000 <= x <= 0x1_0000,
        -0x1_0000 <= y <= 0x1_0000,
    ensures
        -0x4_0000 <= blend(f, x, g, y) <= 0x4_0000,
{
    assert(-0x1_0000_0000 <= f * x <= 0x1_0000_0000) by (nonlinear_arith)
        requires
            -0x1_0000 <= f <= 0x1_0000,
            -0x1_0000 <= x <= 0x1_0000,
    ;
    assert(-0x1_0000_0000 <= g * y <= 0x1_0000_0000) by (nonlinear_arith)
        requires
            -0x1_0000 <= g <= 0x1_0000,
            -0x1_0000 <= y <= 0x1_0000,
    ;
    lemma_nearest_at(f * x + g * y);
}

proof fn lemma_neutral_in_space(t: Transform2D, depth: i32)
    ensures
        in_space(t, depth).followed_by(in_space(identity(), 0)) == in_space(t, depth),
{
    let m = in_space(t, depth);
    lemma_neutral_row(m.x);
    lemma_neutral_row(m.y);
    lemma_neutral_row(m.z);
    lemma_neutral_row(m.w);
}

proof fn lemma_neutral_row(r: Row)
    requires
        r.in_range(),
    ensures
        r.through(in_space(identity(), 0)) == r,
{
    lemma_nearest_at(r.x * 65536);
    lemma_nearest_at(r.y * 65536);
    lemma_nearest_at(r.z * 65536);
    lemma_nearest_at(r.w * 65536);
    assert(r.x * 65536 + r.y * 0 + r.z * 0 + r.w * 0 == r.x * 65536);
    assert(r.x * 0 + r.y * 65536 + r.z * 0 + r.w * 0 == r.y * 65536);
    assert(r.x * 0 + r.y * 0 + r.z * 65536 + r.w * 0 == r.z * 65536);
    assert(r.x * 0 + r.y * 0 + r.z * 0 + r.w * 65536 == r.w * 65536);
}

} // verus!
