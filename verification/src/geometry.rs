//! Points, sizes and rectangles as plain values, and the few operations of
//! `embedded-graphics-core` on them that the layers rely on.
//!
//! Coordinates follow `embedded-graphics`: `x` grows to the right, `y`
//! downwards, and a rectangle covers the `width × height` pixels whose
//! top-left corner is `top_left`. The rectangle operations (`contains`,
//! `intersection`, point arithmetic) are computed by `embedded-graphics-core`
//! itself; the specification functions here state what its source computes.
use vstd::prelude::*;
use vstd::arithmetic::div_mod::{
    lemma_div_pos_is_pos, lemma_fundamental_div_mod, lemma_fundamental_div_mod_converse,
    lemma_mod_bound,
};

use embedded_graphics_core::geometry::Point as EgPoint;
use embedded_graphics_core::geometry::Size as EgSize;
use embedded_graphics_core::primitives::Rectangle as EgRectangle;

verus! {

/// A pixel position.
#[derive(Clone, Copy, PartialEq, Eq, Structural, Debug, Hash)]
pub struct Point {
    /// The x coordinate.
    pub x: i32,
    /// The y coordinate.
    pub y: i32,
}

/// A width and a height, in pixels.
#[derive(Clone, Copy, PartialEq, Eq, Structural, Debug, Hash)]
pub struct Size {
    /// The width.
    pub width: u32,
    /// The height.
    pub height: u32,
}

/// An axis-aligned rectangle of pixels.
#[derive(Clone, Copy, PartialEq, Eq, Structural, Debug, Hash)]
pub struct Rectangle {
    /// The top-left corner.
    pub top_left: Point,
    /// The number of columns and rows.
    pub size: Size,
}

/// A point paired with a colour, as handed to a drawing call.
#[derive(Clone, Copy, PartialEq, Eq, Structural, Debug, Hash)]
pub struct Pixel<C>(pub Point, pub C);

impl Point {
    /// Creates a point from its coordinates.
    pub fn new(x: i32, y: i32) -> (p: Point)
        ensures
            p.x == x,
            p.y == y,
    {
        Point { x, y }
    }

    /// The origin.
    pub fn zero() -> (p: Point)
        ensures
            p.x == 0,
            p.y == 0,
    {
        Point { x: 0, y: 0 }
    }
}

impl Size {
    /// Creates a size from a width and a height.
    pub fn new(width: u32, height: u32) -> (s: Size)
        ensures
            s.width == width,
            s.height == height,
    {
        Size { width, height }
    }

    /// The empty size.
    pub fn zero() -> (s: Size)
        ensures
            s.width == 0,
            s.height == 0,
    {
        Size { width: 0, height: 0 }
    }
}

impl Rectangle {
    /// Creates a rectangle from its top-left corner and its size.
    pub fn new(top_left: Point, size: Size) -> (r: Rectangle)
        ensures
            r.top_left == top_left,
            r.size == size,
    {
        Rectangle { top_left, size }
    }

    /// The rectangle of size zero at the origin.
    pub fn zero() -> (r: Rectangle)
        ensures
            r == zero_rect(),
    {
        Rectangle { top_left: Point { x: 0, y: 0 }, size: Size { width: 0, height: 0 } }
    }

    /// Whether `point` lies inside this rectangle.
    pub fn contains(&self, point: Point) -> (b: bool)
        requires
            contains_defined(*self, point),
        ensures
            b == in_rect(*self, point.x as int, point.y as int),
    {
        rect_contains(self, point)
    }

    /// The part of this rectangle that also lies in `other`.
    pub fn intersection(&self, other: &Rectangle) -> (r: Rectangle)
        requires
            intersection_defined(*self, *other),
        ensures
            r == intersection_of(*self, *other),
    {
        rect_intersection(self, other)
    }
}

/// The rectangle of size zero at the origin.
pub open spec fn zero_rect() -> Rectangle {
    Rectangle { top_left: Point { x: 0, y: 0 }, size: Size { width: 0, height: 0 } }
}

/// A rectangle with no pixels: zero columns or zero rows.
pub open spec fn is_zero_sized(r: Rectangle) -> bool {
    r.size.width == 0 || r.size.height == 0
}

/// The rectangle's far corner `top_left + size` is an `i32` point, and so is
/// each side length: `embedded-graphics-core` can then compute its bottom-right
/// corner without overflow.
pub open spec fn corner_fits(r: Rectangle) -> bool {
    &&& r.size.width <= i32::MAX
    &&& r.size.height <= i32::MAX
    &&& r.top_left.x + r.size.width <= i32::MAX
    &&& r.top_left.y + r.size.height <= i32::MAX
}

/// Whether `(x, y)` lies inside `r`, on the integer plane.
pub open spec fn in_rect(r: Rectangle, x: int, y: int) -> bool {
    &&& r.top_left.x <= x < r.top_left.x + r.size.width
    &&& r.top_left.y <= y < r.top_left.y + r.size.height
}

/// Every pixel of `a` is a pixel of `b`.
pub open spec fn within(a: Rectangle, b: Rectangle) -> bool {
    ||| is_zero_sized(a)
    ||| {
        &&& b.top_left.x <= a.top_left.x
        &&& a.top_left.x + a.size.width <= b.top_left.x + b.size.width
        &&& b.top_left.y <= a.top_left.y
        &&& a.top_left.y + a.size.height <= b.top_left.y + b.size.height
    }
}

/// `Rectangle::contains` computes the bottom-right corner only for a point
/// at or past the top-left corner of a rectangle with pixels; that corner
/// must then fit in `i32`.
pub open spec fn contains_defined(r: Rectangle, p: Point) -> bool {
    (p.x >= r.top_left.x && p.y >= r.top_left.y && !is_zero_sized(r)) ==> corner_fits(r)
}

/// `Rectangle::intersection` computes the bottom-right corner of each
/// rectangle that has pixels.
pub open spec fn intersection_defined(a: Rectangle, b: Rectangle) -> bool {
    &&& !is_zero_sized(a) ==> corner_fits(a)
    &&& !is_zero_sized(b) ==> corner_fits(b)
}

pub open spec fn max_int(a: int, b: int) -> int {
    if a >= b { a } else { b }
}

pub open spec fn min_int(a: int, b: int) -> int {
    if a <= b { a } else { b }
}

/// The overlap test on inclusive ranges used by `Rectangle::intersection`.
pub open spec fn ranges_overlap(a1: int, a2: int, b1: int, b2: int) -> bool {
    ||| (b1 <= a1 && a1 <= b2)
    ||| (b1 <= a2 && a2 <= b2)
    ||| (a1 < b1 && a2 > b2)
}

/// What `a.intersection(&b)` returns: the overlap of two rectangles with
/// pixels; a rectangle without pixels when it lies inside the other one; the
/// zero rectangle otherwise.
pub open spec fn intersection_of(a: Rectangle, b: Rectangle) -> Rectangle {
    if !is_zero_sized(a) && !is_zero_sized(b) {
        let ar: int = a.top_left.x + a.size.width - 1;
        let ab: int = a.top_left.y + a.size.height - 1;
        let br: int = b.top_left.x + b.size.width - 1;
        let bb: int = b.top_left.y + b.size.height - 1;
        if ranges_overlap(a.top_left.x as int, ar, b.top_left.x as int, br) && ranges_overlap(
            a.top_left.y as int,
            ab,
            b.top_left.y as int,
            bb,
        ) {
            let l: int = max_int(a.top_left.x as int, b.top_left.x as int);
            let t: int = max_int(a.top_left.y as int, b.top_left.y as int);
            let r: int = min_int(ar, br);
            let btm: int = min_int(ab, bb);
            Rectangle {
                top_left: Point { x: l as i32, y: t as i32 },
                size: Size { width: (r - l + 1) as u32, height: (btm - t + 1) as u32 },
            }
        } else {
            zero_rect()
        }
    } else if is_zero_sized(a) && !is_zero_sized(b) {
        if in_rect(b, a.top_left.x as int, a.top_left.y as int) {
            a
        } else {
            zero_rect()
        }
    } else if !is_zero_sized(a) && is_zero_sized(b) {
        if in_rect(a, b.top_left.x as int, b.top_left.y as int) {
            b
        } else {
            zero_rect()
        }
    } else {
        zero_rect()
    }
}

/// `r` translated by `(dx, dy)`.
pub open spec fn translated(r: Rectangle, dx: int, dy: int) -> Rectangle {
    Rectangle {
        top_left: Point { x: (r.top_left.x + dx) as i32, y: (r.top_left.y + dy) as i32 },
        size: r.size,
    }
}

/// `p` moved by `(dx, dy)`.
pub open spec fn shifted_point(p: Point, dx: int, dy: int) -> Point {
    Point { x: (p.x + dx) as i32, y: (p.y + dy) as i32 }
}

/// Two rectangles whose point walks have the same shape: both without
/// points, or the same numbers of columns and rows.
pub open spec fn same_walk(a: Rectangle, b: Rectangle) -> bool {
    &&& is_zero_sized(a) == is_zero_sized(b)
    &&& !is_zero_sized(a) ==> columns(a) == columns(b) && rows(a) == rows(b)
}

/// Adding `(dx, dy)` to `p` stays in `i32`.
pub open spec fn shift_fits(p: Point, dx: int, dy: int) -> bool {
    &&& i32::MIN <= p.x + dx <= i32::MAX
    &&& i32::MIN <= p.y + dy <= i32::MAX
}

/// The number of coordinates a `Rectangle`'s point iterator visits along one
/// axis from `start` for a side of `len`: the range ends at
/// `start + len`, saturated to `i32::MAX`.
pub open spec fn span(start: i32, len: u32) -> int {
    min_int(start + min_int(len as int, i32::MAX as int), i32::MAX as int) - start
}

/// The number of columns that the points of `r` cover.
pub open spec fn columns(r: Rectangle) -> int {
    span(r.top_left.x, r.size.width)
}

/// The number of rows that the points of `r` cover.
pub open spec fn rows(r: Rectangle) -> int {
    span(r.top_left.y, r.size.height)
}

/// How many points `r.points()` yields.
pub open spec fn point_count(r: Rectangle) -> int {
    if is_zero_sized(r) {
        0
    } else {
        columns(r) * rows(r)
    }
}

/// The `i`-th point of `r` in row-major order, for `0 <= i < point_count(r)`.
pub open spec fn nth_point(r: Rectangle, i: int) -> Point {
    Point {
        x: (r.top_left.x + i % columns(r)) as i32,
        y: (r.top_left.y + i / columns(r)) as i32,
    }
}

/// `(x, y)` is one of the points of `r`: the row-major walk reaches it.
pub open spec fn in_points(r: Rectangle, x: int, y: int) -> bool {
    &&& !is_zero_sized(r)
    &&& r.top_left.x <= x < r.top_left.x + columns(r)
    &&& r.top_left.y <= y < r.top_left.y + rows(r)
}

/// The position of `(x, y)` in the row-major walk of `r`.
pub open spec fn point_index(r: Rectangle, x: int, y: int) -> int {
    (y - r.top_left.y) * columns(r) + (x - r.top_left.x)
}

/// Dividing an index of a `columns × rows` walk by `columns` gives its row
/// and remainder column.
proof fn lemma_walk_div_mod(i: int, c: int, r: int)
    requires
        0 < c,
        0 <= i < c * r,
    ensures
        0 <= i % c < c,
        0 <= i / c < r,
        i == (i / c) * c + i % c,
{
    lemma_fundamental_div_mod(i, c);
    lemma_mod_bound(i, c);
    lemma_div_pos_is_pos(i, c);
    let q: int = i / c;
    let m: int = i % c;
    assert(q < r) by (nonlinear_arith)
        requires
            i == c * q + m,
            0 <= m,
            i < c * r,
            0 < c,
    ;
    assert(c * q == q * c) by (nonlinear_arith);
}

/// Every position of the walk of `r` names one of its points, and the point
/// names the position back.
pub proof fn lemma_nth_point(r: Rectangle, i: int)
    requires
        0 <= i < point_count(r),
    ensures
        nth_point(r, i).x == r.top_left.x + i % columns(r),
        nth_point(r, i).y == r.top_left.y + i / columns(r),
        in_points(r, nth_point(r, i).x as int, nth_point(r, i).y as int),
        point_index(r, nth_point(r, i).x as int, nth_point(r, i).y as int) == i,
{
    let c: int = columns(r);
    let w: int = rows(r);
    assert(c > 0 && w > 0) by (nonlinear_arith)
        requires
            c * w > 0,
            c >= 0,
            w >= 0,
    ;
    lemma_walk_div_mod(i, c, w);
}

/// A point of `r` sits at the position `point_index` of the walk.
pub proof fn lemma_point_index(r: Rectangle, x: int, y: int)
    requires
        in_points(r, x, y),
    ensures
        0 <= point_index(r, x, y) < point_count(r),
        nth_point(r, point_index(r, x, y)) == (Point { x: x as i32, y: y as i32 }),
{
    let c: int = columns(r);
    let w: int = rows(r);
    let q: int = y - r.top_left.y;
    let m: int = x - r.top_left.x;
    let i: int = point_index(r, x, y);
    assert(0 <= i < c * w) by (nonlinear_arith)
        requires
            i == q * c + m,
            0 <= q < w,
            0 <= m < c,
    ;
    lemma_fundamental_div_mod_converse(i, c, q, m);
}

/// Moving a rectangle moves its walk: the `i`-th point of the moved
/// rectangle is the `i`-th point of the original, moved.
pub proof fn lemma_translated_walk(r: Rectangle, dx: int, dy: int, i: int)
    requires
        shift_fits(r.top_left, dx, dy),
        same_walk(r, translated(r, dx, dy)),
        0 <= i < point_count(r),
    ensures
        point_count(translated(r, dx, dy)) == point_count(r),
        nth_point(translated(r, dx, dy), i) == shifted_point(nth_point(r, i), dx, dy),
{
    let t = translated(r, dx, dy);
    lemma_nth_point(r, i);
    assert(point_count(t) == point_count(r));
    lemma_nth_point(t, i);
}

/// Moving a rectangle moves its points, and keeps their positions in the
/// walk.
pub proof fn lemma_translated_points(r: Rectangle, dx: int, dy: int, x: int, y: int)
    requires
        shift_fits(r.top_left, dx, dy),
        same_walk(r, translated(r, dx, dy)),
    ensures
        in_points(translated(r, dx, dy), x + dx, y + dy) == in_points(r, x, y),
        in_points(r, x, y) ==> point_index(translated(r, dx, dy), x + dx, y + dy) == point_index(
            r,
            x,
            y,
        ),
{
}

/// For a rectangle whose corner fits, the walk covers exactly the
/// rectangle.
pub proof fn lemma_fits_points(r: Rectangle, x: int, y: int)
    requires
        is_zero_sized(r) || corner_fits(r),
    ensures
        in_points(r, x, y) == in_rect(r, x, y),
        !is_zero_sized(r) ==> columns(r) == r.size.width && rows(r) == r.size.height,
{
}

/// A point lies in the intersection of two rectangles exactly when it lies
/// in both; the intersection has no pixels or a corner that fits.
pub proof fn lemma_intersection_rect(a: Rectangle, b: Rectangle, x: int, y: int)
    requires
        intersection_defined(a, b),
    ensures
        in_rect(intersection_of(a, b), x, y) == (in_rect(a, x, y) && in_rect(b, x, y)),
        is_zero_sized(intersection_of(a, b)) || corner_fits(intersection_of(a, b)),
{
}

/// An intersection that gives back one of its arguments, `a`, leaves every
/// point of `a`'s walk inside the other, and the walk covers only pixels of
/// `a`.
pub proof fn lemma_intersection_keeps(w: Rectangle, a: Rectangle, x: int, y: int)
    requires
        intersection_defined(w, a),
        intersection_of(w, a) == a,
        in_points(a, x, y),
    ensures
        in_rect(w, x, y),
        in_rect(a, x, y),
{
    lemma_intersection_rect(w, a, x, y);
    lemma_fits_points(a, x, y);
}

/// Clamping `a` to `m` keeps exactly the points of `a`'s walk that are
/// pixels of `m`.
pub proof fn lemma_clamped_points(a: Rectangle, m: Rectangle, x: int, y: int)
    requires
        intersection_defined(a, m),
    ensures
        in_points(intersection_of(a, m), x, y) == (in_points(a, x, y) && in_rect(m, x, y)),
        in_points(intersection_of(a, m), x, y) == in_rect(intersection_of(a, m), x, y),
{
    lemma_intersection_rect(a, m, x, y);
    lemma_fits_points(intersection_of(a, m), x, y);
    lemma_fits_points(a, x, y);
}

/// The number of pixels along one axis that `Rectangle::points` walks.
fn span_exec(start: i32, len: u32) -> (n: u32)
    ensures
        n == span(start, len),
        n <= u32::MAX,
{
    let len_i: i64 = if len as i64 > i32::MAX as i64 {
        i32::MAX as i64
    } else {
        len as i64
    };
    let end: i64 = if start as i64 + len_i > i32::MAX as i64 {
        i32::MAX as i64
    } else {
        start as i64 + len_i
    };
    (end - start as i64) as u32
}

/// The number of columns of the walk of `r` and its number of points.
pub(crate) fn walk_shape(r: &Rectangle) -> (res: (u64, u64))
    ensures
        res.0 == columns(*r),
        res.1 == point_count(*r),
        res.1 > 0 ==> res.0 > 0,
{
    let c: u32 = span_exec(r.top_left.x, r.size.width);
    let w: u32 = span_exec(r.top_left.y, r.size.height);
    if r.size.width == 0 || r.size.height == 0 {
        (c as u64, 0)
    } else {
        assert(c as int * w as int <= u32::MAX as int * u32::MAX as int) by (nonlinear_arith)
            requires
                c <= u32::MAX,
                w <= u32::MAX,
        ;
        assert(c as int * w as int > 0 ==> c > 0) by (nonlinear_arith);
        (c as u64, c as u64 * w as u64)
    }
}

/// The `i`-th point of the row-major walk of `r`.
pub(crate) fn walk_point(r: &Rectangle, cols: u64, i: u64) -> (p: Point)
    requires
        cols == columns(*r),
        i < point_count(*r),
    ensures
        p == nth_point(*r, i as int),
        p.x == r.top_left.x + i % cols,
        p.y == r.top_left.y + i / cols,
{
    proof {
        lemma_nth_point(*r, i as int);
    }
    let x: i32 = (r.top_left.x as i64 + (i % cols) as i64) as i32;
    let y: i32 = (r.top_left.y as i64 + (i / cols) as i64) as i32;
    Point { x, y }
}

/// `area` moved by `offset`; `Transform` lives in `embedded-graphics`, not
/// in its core.
pub(crate) fn translate(area: &Rectangle, offset: Point) -> (r: Rectangle)
    requires
        shift_fits(area.top_left, offset.x as int, offset.y as int),
    ensures
        r == translated(*area, offset.x as int, offset.y as int),
{
    Rectangle { top_left: add_points(area.top_left, offset), size: area.size }
}

/// `Point + Point` of `embedded-graphics-core`: the componentwise sum. It
/// panics on overflow when overflow checks are on, which `requires` leaves
/// out.
#[verifier::external_body]
pub(crate) fn add_points(a: Point, b: Point) -> (r: Point)
    requires
        shift_fits(a, b.x as int, b.y as int),
    ensures
        r.x == a.x + b.x,
        r.y == a.y + b.y,
{
    let r = EgPoint::new(a.x, a.y) + EgPoint::new(b.x, b.y);
    Point { x: r.x, y: r.y }
}

/// `-Point` of `embedded-graphics-core`: both coordinates negated. It
/// panics (overflow) on `i32::MIN`, which `requires` leaves out.
#[verifier::external_body]
pub(crate) fn negate_point(a: Point) -> (r: Point)
    requires
        a.x != i32::MIN,
        a.y != i32::MIN,
    ensures
        r.x == -a.x,
        r.y == -a.y,
{
    let r = -EgPoint::new(a.x, a.y);
    Point { x: r.x, y: r.y }
}

/// `Rectangle::contains` of `embedded-graphics-core`: whether the point is one
/// of the rectangle's pixels. It panics when the bottom-right corner it
/// computes overflows, which `requires` leaves out.
#[verifier::external_body]
fn rect_contains(r: &Rectangle, p: Point) -> (b: bool)
    requires
        contains_defined(*r, p),
    ensures
        b == in_rect(*r, p.x as int, p.y as int),
{
    let (t, s) = (r.top_left, r.size);
    let er = EgRectangle::new(EgPoint::new(t.x, t.y), EgSize::new(s.width, s.height));
    er.contains(EgPoint::new(p.x, p.y))
}

/// `Rectangle::intersection` of `embedded-graphics-core`, stated as its source
/// computes it (see `intersection_of`). It panics when a bottom-right corner
/// it computes overflows, which `requires` leaves out.
#[verifier::external_body]
fn rect_intersection(a: &Rectangle, b: &Rectangle) -> (r: Rectangle)
    requires
        intersection_defined(*a, *b),
    ensures
        r == intersection_of(*a, *b),
{
    let (at, az, bt, bz) = (a.top_left, a.size, b.top_left, b.size);
    let ea = EgRectangle::new(EgPoint::new(at.x, at.y), EgSize::new(az.width, az.height));
    let eb = EgRectangle::new(EgPoint::new(bt.x, bt.y), EgSize::new(bz.width, bz.height));
    let EgRectangle { top_left: t, size: z } = ea.intersection(&eb);
    Rectangle { top_left: Point { x: t.x, y: t.y }, size: Size { width: z.width, height: z.height } }
}

} // verus!
