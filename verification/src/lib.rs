//! A pixel-readback capability for draw targets.
//!
//! Compositing needs to know what is already on the target before it writes:
//! antialiased edges, translucent fills and blend modes all blend a foreground
//! colour into whatever the target currently holds. [`ReadbackTarget`] is a
//! draw target that can answer that question: [`ReadbackTarget::read_pixel`]
//! reads one pixel, and [`ReadbackTarget::read_area`] copies a region out
//! row-major in one call.
//!
//! A target is described, for the proofs, by the colour it holds at each
//! point of the integer plane (`color_at`, `None` where it holds none) and its
//! bounding box (`bounds`), inside which it holds a colour at every point.
//! Every operation of the trait is specified over that picture: a read
//! returns it, a write changes it. [`Canvas`] is a target in memory held to
//! it.
//!
//! The [`adapters`] carry the capability down a pipeline: [`adapters::Shifted`]
//! moves the origin, [`adapters::Windowed`] restricts the target to a
//! sub-region with its own origin and [`adapters::Masked`] restricts it in the
//! parent's coordinates.
use vstd::prelude::*;

pub mod adapters;
pub mod canvas;
pub mod geometry;

pub use adapters::ReadbackTargetExt;
pub use canvas::Canvas;
pub use geometry::{Pixel, Point, Rectangle, Size};

use geometry::{in_points, lemma_nth_point, nth_point, point_count, point_index};

verus! {

/// The colours a target holds, as a function of the point.
pub type ColorView<C> = spec_fn(int, int) -> Option<C>;

/// How many slots `read_area` walks: the shorter of `out` and the area.
pub open spec fn walk_len(area: Rectangle, out_len: int) -> int {
    if out_len <= point_count(area) {
        out_len
    } else {
        point_count(area)
    }
}

/// The colour that `view` holds at the `i`-th point of `area`.
pub open spec fn color_of_nth<C>(view: ColorView<C>, area: Rectangle, i: int) -> Option<C> {
    view(nth_point(area, i).x as int, nth_point(area, i).y as int)
}

/// A read walks exactly the shorter of `out` and the area: never more slots
/// than either has, and all of one of them. For a rectangle whose corner
/// fits, the area has `width × height` points.
pub proof fn lemma_walk_len_is_shorter(area: Rectangle, out_len: int)
    requires
        0 <= out_len,
    ensures
        0 <= walk_len(area, out_len) <= out_len,
        walk_len(area, out_len) <= point_count(area),
        walk_len(area, out_len) == out_len || walk_len(area, out_len) == point_count(area),
        geometry::is_zero_sized(area) || geometry::corner_fits(area) ==> point_count(area)
            == area.size.width * area.size.height,
{
    if geometry::corner_fits(area) {
        geometry::lemma_fits_points(area, 0, 0);
    }
    if geometry::is_zero_sized(area) {
        assert(area.size.width * area.size.height == 0) by (nonlinear_arith)
            requires
                area.size.width == 0 || area.size.height == 0,
        ;
    } else {
        let c = geometry::columns(area);
        let r = geometry::rows(area);
        assert(c >= 0 && r >= 0);
        assert(c * r >= 0) by (nonlinear_arith)
            requires
                c >= 0,
                r >= 0,
        ;
    }
}

/// `out` after a row-major read of `area` from `view`: each walked slot whose
/// point holds a colour receives it; every other slot keeps its value.
pub open spec fn readout<C>(view: ColorView<C>, area: Rectangle, out: Seq<C>) -> Seq<C> {
    Seq::new(
        out.len(),
        |i: int|
            if i < walk_len(area, out.len() as int) && color_of_nth(view, area, i) is Some {
                color_of_nth(view, area, i)->0
            } else {
                out[i]
            },
    )
}

/// How many of the first `k` points of `area` hold a colour in `view`.
pub open spec fn hits<C>(view: ColorView<C>, area: Rectangle, k: int) -> nat
    decreases k,
{
    if k <= 0 {
        0
    } else {
        hits(view, area, k - 1) + if color_of_nth(view, area, k - 1) is Some {
            1nat
        } else {
            0nat
        }
    }
}

/// How many of the first `k` points of `area`'s walk are pixels of `r`.
pub open spec fn count_in(r: Rectangle, area: Rectangle, k: int) -> nat
    decreases k,
{
    if k <= 0 {
        0
    } else {
        count_in(r, area, k - 1) + if geometry::in_rect(
            r,
            nth_point(area, k - 1).x as int,
            nth_point(area, k - 1).y as int,
        ) {
            1nat
        } else {
            0nat
        }
    }
}

/// The `i`-th pixel handed to a drawing call lies at `(x, y)`.
pub open spec fn drawn_at<C>(pixels: Seq<Pixel<C>>, i: int, x: int, y: int) -> bool {
    &&& 0 <= i < pixels.len()
    &&& pixels[i].0.x == x
    &&& pixels[i].0.y == y
}

/// The colour of the last of `pixels` that lies at `(x, y)`, or `None` when
/// none does.
pub open spec fn last_at<C>(pixels: Seq<Pixel<C>>, x: int, y: int) -> Option<C>
    decreases pixels.len(),
{
    if pixels.len() == 0 {
        None
    } else if drawn_at(pixels, pixels.len() - 1, x, y) {
        Some(pixels[pixels.len() - 1].1)
    } else {
        last_at(pixels.drop_last(), x, y)
    }
}

/// After drawing `pixels` in order, a point that held a colour and was drawn
/// holds the colour of the last pixel drawn there; every other point is
/// unchanged.
pub open spec fn drawn<C>(
    before: Option<C>,
    pixels: Seq<Pixel<C>>,
    x: int,
    y: int,
    after: Option<C>,
) -> bool {
    if before is Some && last_at(pixels, x, y) is Some {
        after == last_at(pixels, x, y)
    } else {
        after == before
    }
}

/// The last pixel at a point gives its colour: where the `i`-th pixel lies
/// at `(x, y)` and no later one does, `last_at` is that pixel's colour.
pub proof fn lemma_last_at_is_last<C>(pixels: Seq<Pixel<C>>, x: int, y: int, i: int)
    requires
        drawn_at(pixels, i, x, y),
        forall|j: int| i < j < pixels.len() ==> !#[trigger] drawn_at(pixels, j, x, y),
    ensures
        last_at(pixels, x, y) == Some(pixels[i].1),
    decreases pixels.len(),
{
    if i < pixels.len() - 1 {
        let d = pixels.drop_last();
        assert(!drawn_at(pixels, pixels.len() - 1, x, y));
        assert(d[i] == pixels[i]);
        assert forall|j: int| i < j < d.len() implies !#[trigger] drawn_at(d, j, x, y) by {
            assert(d[j] == pixels[j]);
            assert(!drawn_at(pixels, j, x, y));
        }
        lemma_last_at_is_last(d, x, y, i);
    }
}

/// A point that no pixel lies at, and only such a point, has no last pixel.
pub proof fn lemma_last_at_none<C>(pixels: Seq<Pixel<C>>, x: int, y: int)
    ensures
        (last_at(pixels, x, y) is None) == (forall|i: int| !#[trigger] drawn_at(pixels, i, x, y)),
    decreases pixels.len(),
{
    if pixels.len() > 0 {
        let d = pixels.drop_last();
        lemma_last_at_none(d, x, y);
        assert forall|i: int| 0 <= i < d.len() implies #[trigger] drawn_at(pixels, i, x, y)
            == drawn_at(d, i, x, y) by {
            assert(d[i] == pixels[i]);
        }
        if last_at(pixels, x, y) is None {
            assert forall|i: int| !#[trigger] drawn_at(pixels, i, x, y) by {
                if 0 <= i < d.len() {
                    assert(!drawn_at(d, i, x, y));
                }
            }
        } else if forall|i: int| !#[trigger] drawn_at(pixels, i, x, y) {
            assert(!drawn_at(pixels, pixels.len() - 1, x, y));
            assert forall|i: int| !#[trigger] drawn_at(d, i, x, y) by {
                if 0 <= i < d.len() {
                    assert(!drawn_at(pixels, i, x, y));
                }
            }
        }
    }
}

/// Drawing keeps the last pixel: once `draw_iter` has drawn `pixels` onto a
/// target, a point that held a colour holds the colour of the last pixel
/// drawn there, and a point that no pixel lies at keeps its colour.
pub proof fn lemma_draw_keeps_last<T: ReadbackTarget>(
    before: &T,
    after: &T,
    pixels: Seq<Pixel<T::Color>>,
    x: int,
    y: int,
)
    requires
        drawn(before.color_at(x, y), pixels, x, y, after.color_at(x, y)),
    ensures
        forall|i: int|
            before.color_at(x, y) is Some && drawn_at(pixels, i, x, y) && (forall|j: int|
                i < j < pixels.len() ==> !#[trigger] drawn_at(pixels, j, x, y)) ==> after.color_at(
                x,
                y,
            ) == Some(#[trigger] pixels[i].1),
        (forall|i: int| !#[trigger] drawn_at(pixels, i, x, y)) ==> after.color_at(x, y)
            == before.color_at(x, y),
{
    lemma_last_at_none(pixels, x, y);
    assert forall|i: int|
        before.color_at(x, y) is Some && drawn_at(pixels, i, x, y) && (forall|j: int|
            i < j < pixels.len() ==> !#[trigger] drawn_at(pixels, j, x, y)) implies after.color_at(
        x,
        y,
    ) == Some(#[trigger] pixels[i].1) by {
        lemma_last_at_is_last(pixels, x, y, i);
    }
}

/// The colour at `(x, y)` after `area` is filled row-major from `colors`: a
/// point that held a colour and whose position in the walk is covered by
/// `colors` takes that colour; every other point is unchanged.
pub open spec fn filled<C>(
    before: Option<C>,
    area: Rectangle,
    colors: Seq<C>,
    x: int,
    y: int,
) -> Option<C> {
    if before is Some && in_points(area, x, y) && point_index(area, x, y) < colors.len() {
        Some(colors[point_index(area, x, y)])
    } else {
        before
    }
}

/// The colour at `(x, y)` after `area` is filled with `color`.
pub open spec fn painted<C>(before: Option<C>, area: Rectangle, color: C, x: int, y: int) -> Option<C> {
    if before is Some && in_points(area, x, y) {
        Some(color)
    } else {
        before
    }
}

/// The smaller of a walk's length and a slice length.
pub open spec fn min_len(a: int, b: int) -> int {
    if a <= b {
        a
    } else {
        b
    }
}

/// A draw target that can read back the pixels it has drawn.
///
/// Implement it for targets that keep their pixels in memory (framebuffers,
/// canvases, simulators). The drawing half (`draw_iter`, `fill_contiguous`,
/// `fill_solid`, `clear`) follows `embedded-graphics`' `DrawTarget`, with the
/// pixels and colours handed over as slices.
///
/// For the proofs a target is its bounding box, `bounds`, and the colour it
/// holds at each point, `color_at`: it holds a colour exactly at the points
/// of its bounding box. The `*_defined` predicates say where an operation
/// runs without arithmetic overflow; the adapters, which shift coordinates,
/// make them precise.
///
/// The contracts speak of that model only for an implementation that is held
/// to it, one whose `obeys_model` is `true`: [`canvas::Canvas`], and every
/// layer in [`adapters`] over such a target. Plain Rust cannot define
/// specification functions, so a target written in it keeps the defaults
/// below, `obeys_model` among them is `false`, and the contracts then promise
/// nothing of its colours or its bounding box.
pub trait ReadbackTarget: Sized {
    /// The pixel colour type.
    type Color: Copy;

    /// The error a drawing operation can return.
    type Error;

    /// Whether the implementation is held to the model: `true` for the
    /// verified implementations, `false` (the default) for a target written
    /// in plain Rust.
    open spec fn obeys_model() -> bool {
        false
    }

    /// The target's bounding box. Verified implementations define it; the
    /// default (the zero rectangle) belongs to targets that do not obey the
    /// model and describes nothing.
    open spec fn bounds(&self) -> Rectangle {
        geometry::zero_rect()
    }

    /// The colour the target holds at `(x, y)`, or `None`. Verified
    /// implementations define it; the default (`None` everywhere) belongs to
    /// targets that do not obey the model and describes nothing.
    open spec fn color_at(&self, x: int, y: int) -> Option<Self::Color> {
        None
    }

    /// The bounding box is well formed: `bounding_box` runs without overflow,
    /// and a layer's box lies within the target underneath. By default it
    /// always is.
    open spec fn bounds_defined(&self) -> bool {
        true
    }

    /// `read_pixel(p)` runs without overflow; by default it always does.
    open spec fn read_defined(&self, p: Point) -> bool {
        true
    }

    /// Drawing a pixel at `p` runs without overflow; by default it always
    /// does.
    open spec fn write_defined(&self, p: Point) -> bool {
        true
    }

    /// `read_area` handles `area` without overflow, beyond reading each
    /// point; by default it always does.
    open spec fn area_read_defined(&self, area: Rectangle) -> bool {
        true
    }

    /// `fill_contiguous` and `fill_solid` handle `area` without overflow,
    /// beyond drawing each point; by default they always do.
    open spec fn area_write_defined(&self, area: Rectangle) -> bool {
        true
    }

    /// The target's bounding box.
    fn bounding_box(&self) -> (r: Rectangle)
        requires
            self.bounds_defined(),
        ensures
            Self::obeys_model() ==> r == self.bounds(),
    ;

    /// The colour currently at `point`, or `None` if `point` lies outside the
    /// target's bounding box.
    #[must_use]
    fn read_pixel(&self, point: Point) -> (r: Option<Self::Color>)
        requires
            self.read_defined(point),
        ensures
            Self::obeys_model() ==> r == self.color_at(point.x as int, point.y as int),
            Self::obeys_model() && self.bounds_defined() ==> (r is Some <==> geometry::in_rect(
                self.bounds(),
                point.x as int,
                point.y as int,
            )),
    ;

    /// Read the pixels of `area` row-major into `out`, returning how many were
    /// in bounds (and so written).
    ///
    /// Each in-bounds colour is written to the matching `out` slot and
    /// out-of-bounds slots are left untouched. Iteration stops at whichever of
    /// `area` or `out` is exhausted first. The default reads pixel by pixel;
    /// override it when the target can copy a whole region at once.
    fn read_area(&self, area: &Rectangle, out: &mut [Self::Color]) -> (n: usize)
        requires
            self.area_read_defined(*area),
            forall|i: int|
                0 <= i < walk_len(*area, old(out)@.len() as int) ==> self.read_defined(
                    #[trigger] nth_point(*area, i),
                ),
        ensures
            Self::obeys_model() ==> final(out)@ == readout(
                |x: int, y: int| self.color_at(x, y),
                *area,
                old(out)@,
            ),
            Self::obeys_model() ==> n == hits(
                |x: int, y: int| self.color_at(x, y),
                *area,
                walk_len(*area, old(out)@.len() as int),
            ),
            Self::obeys_model() && self.bounds_defined() ==> n == count_in(
                self.bounds(),
                *area,
                walk_len(*area, old(out)@.len() as int),
            ),
    {
        let read = |p: Point| -> (c: Option<Self::Color>)
            requires
                self.read_defined(p),
            ensures
                Self::obeys_model() ==> c == self.color_at(p.x as int, p.y as int),
                Self::obeys_model() && self.bounds_defined() ==> (c is Some <==> geometry::in_rect(
                    self.bounds(),
                    p.x as int,
                    p.y as int,
                )),
            { self.read_pixel(p) };
        let ghost view = |x: int, y: int| self.color_at(x, y);
        let n = read_area_by_pixel(&read, Ghost(Self::obeys_model()), Ghost(view), area, out);
        proof {
            if Self::obeys_model() && self.bounds_defined() {
                lemma_read_counts_in(&read, view, self.bounds(), *area, walk_len(*area, old(out)@.len() as int));
            }
        }
        n
    }

    /// Draw individual pixels. A target held to the model draws them in
    /// order: where several land on one point, the last one stays.
    fn draw_iter(&mut self, pixels: &[Pixel<Self::Color>]) -> (r: Result<(), Self::Error>)
        requires
            pixels@.len() <= usize::MAX,
            forall|i: int|
                0 <= i < pixels@.len() ==> old(self).write_defined(#[trigger] pixels@[i].0),
        ensures
            final(self).bounds() == old(self).bounds(),
            final(self).bounds_defined() == old(self).bounds_defined(),
            forall|p: Point| #[trigger] final(self).read_defined(p) == old(self).read_defined(p),
            forall|p: Point| #[trigger] final(self).write_defined(p) == old(self).write_defined(p),
            forall|a: Rectangle| #[trigger]
                final(self).area_read_defined(a) == old(self).area_read_defined(a),
            forall|a: Rectangle| #[trigger]
                final(self).area_write_defined(a) == old(self).area_write_defined(a),
            Self::obeys_model() && r is Ok ==> forall|x: int, y: int|
                drawn(
                    old(self).color_at(x, y),
                    pixels@,
                    x,
                    y,
                    #[trigger] final(self).color_at(x, y),
                ),
    ;

    /// Fill `area` row-major from `colors`; pixels without a colour are not
    /// drawn. The default hands the pixels to `draw_iter`.
    fn fill_contiguous(&mut self, area: &Rectangle, colors: &[Self::Color]) -> (r: Result<
        (),
        Self::Error,
    >)
        requires
            old(self).area_write_defined(*area),
            forall|i: int|
                0 <= i < min_len(point_count(*area), colors@.len() as int) ==> old(
                    self,
                ).write_defined(#[trigger] nth_point(*area, i)),
        ensures
            final(self).bounds() == old(self).bounds(),
            final(self).bounds_defined() == old(self).bounds_defined(),
            forall|p: Point| #[trigger] final(self).read_defined(p) == old(self).read_defined(p),
            forall|p: Point| #[trigger] final(self).write_defined(p) == old(self).write_defined(p),
            forall|a: Rectangle| #[trigger]
                final(self).area_read_defined(a) == old(self).area_read_defined(a),
            forall|a: Rectangle| #[trigger]
                final(self).area_write_defined(a) == old(self).area_write_defined(a),
            Self::obeys_model() && r is Ok ==> forall|x: int, y: int| #[trigger]
                final(self).color_at(x, y) == filled(old(self).color_at(x, y), *area, colors@, x, y),
    {
        let pixels = zip_points(area, colors);
        assert(pixels@.len() == pixels.len());
        let r = self.draw_iter(pixels.as_slice());
        proof {
            if Self::obeys_model() && r is Ok {
                assert forall|x: int, y: int| #[trigger]
                    final(self).color_at(x, y) == filled(old(self).color_at(x, y), *area, colors@, x, y) by {
                    lemma_zip_drawn(
                        *area,
                        colors@,
                        pixels@,
                        old(self).color_at(x, y),
                        x,
                        y,
                        final(self).color_at(x, y),
                    );
                }
            }
        }
        r
    }

    /// Fill `area` with one colour. The default hands `fill_contiguous` one
    /// colour per point of the area. A region with more points than a slice
    /// can hold is drawn pixel by pixel instead, stopping at the first error.
    fn fill_solid(&mut self, area: &Rectangle, color: Self::Color) -> (r: Result<(), Self::Error>)
        requires
            old(self).area_write_defined(*area),
            forall|i: int|
                0 <= i < point_count(*area) ==> old(self).write_defined(
                    #[trigger] nth_point(*area, i),
                ),
        ensures
            final(self).bounds() == old(self).bounds(),
            final(self).bounds_defined() == old(self).bounds_defined(),
            forall|p: Point| #[trigger] final(self).read_defined(p) == old(self).read_defined(p),
            forall|p: Point| #[trigger] final(self).write_defined(p) == old(self).write_defined(p),
            forall|a: Rectangle| #[trigger]
                final(self).area_read_defined(a) == old(self).area_read_defined(a),
            forall|a: Rectangle| #[trigger]
                final(self).area_write_defined(a) == old(self).area_write_defined(a),
            Self::obeys_model() && r is Ok ==> forall|x: int, y: int| #[trigger]
                final(self).color_at(x, y) == painted(old(self).color_at(x, y), *area, color, x, y),
    {
        let (cols, count): (u64, u64) = geometry::walk_shape(area);
        if count <= usize::MAX as u64 {
            let colors = repeated(color, count as usize);
            let r = self.fill_contiguous(area, colors.as_slice());
            proof {
                if Self::obeys_model() && r is Ok {
                    assert forall|x: int, y: int| #[trigger]
                        final(self).color_at(x, y) == painted(
                            old(self).color_at(x, y),
                            *area,
                            color,
                            x,
                            y,
                        ) by {
                        if in_points(*area, x, y) {
                            geometry::lemma_point_index(*area, x, y);
                        }
                    }
                }
            }
            return r;
        }
        let mut i: u64 = 0;
        while i < count
            invariant
                cols == geometry::columns(*area),
                count == point_count(*area),
                0 <= i <= count,
                self.bounds() == old(self).bounds(),
                self.bounds_defined() == old(self).bounds_defined(),
                forall|p: Point| #[trigger] self.read_defined(p) == old(self).read_defined(p),
                forall|p: Point| #[trigger] self.write_defined(p) == old(self).write_defined(p),
                forall|a: Rectangle| #[trigger]
                    self.area_read_defined(a) == old(self).area_read_defined(a),
                forall|a: Rectangle| #[trigger]
                    self.area_write_defined(a) == old(self).area_write_defined(a),
                forall|j: int|
                    0 <= j < count ==> old(self).write_defined(#[trigger] nth_point(*area, j)),
                Self::obeys_model() ==> forall|x: int, y: int| #[trigger]
                    self.color_at(x, y) == (if old(self).color_at(x, y) is Some && in_points(*area, x, y)
                        && point_index(*area, x, y) < i {
                        Some(color)
                    } else {
                        old(self).color_at(x, y)
                    }),
            decreases count - i,
        {
            let p = geometry::walk_point(area, cols, i);
            let ghost before = *self;
            proof {
                assert(old(self).write_defined(nth_point(*area, i as int)));
            }
            let one = [Pixel(p, color)];
            assert(one@.len() == 1);
            let r = self.draw_iter(&one);
            if r.is_err() {
                return r;
            }
            proof {
                lemma_nth_point(*area, i as int);
                if Self::obeys_model() {
                assert forall|x: int, y: int| #[trigger]
                    self.color_at(x, y) == (if old(self).color_at(x, y) is Some && in_points(*area, x, y)
                        && point_index(*area, x, y) < i + 1 {
                        Some(color)
                    } else {
                        old(self).color_at(x, y)
                    }) by {
                    assert(drawn(before.color_at(x, y), one@, x, y, self.color_at(x, y)));
                    if x == p.x && y == p.y {
                        lemma_last_at_is_last(one@, x, y, 0);
                    } else {
                        lemma_last_at_none(one@, x, y);
                        assert forall|j: int| !#[trigger] drawn_at(one@, j, x, y) by {}
                        if in_points(*area, x, y) && point_index(*area, x, y) == i {
                            geometry::lemma_point_index(*area, x, y);
                        }
                    }
                }
                }
            }
            i = i + 1;
        }
        proof {
            if Self::obeys_model() {
                assert forall|x: int, y: int| #[trigger]
                    self.color_at(x, y) == painted(old(self).color_at(x, y), *area, color, x, y) by {
                    if in_points(*area, x, y) {
                        geometry::lemma_point_index(*area, x, y);
                    }
                }
            }
        }
        Ok(())
    }

    /// Fill the whole target with one colour. The default fills the bounding
    /// box. A target outside the model does not say what its bounding box
    /// is, so it must accept every area and every point.
    fn clear(&mut self, color: Self::Color) -> (r: Result<(), Self::Error>)
        requires
            old(self).bounds_defined(),
            Self::obeys_model() ==> old(self).area_write_defined(old(self).bounds()),
            Self::obeys_model() ==> forall|i: int|
                0 <= i < point_count(old(self).bounds()) ==> old(self).write_defined(
                    #[trigger] nth_point(old(self).bounds(), i),
                ),
            !Self::obeys_model() ==> forall|a: Rectangle| #[trigger] old(self).area_write_defined(a),
            !Self::obeys_model() ==> forall|p: Point| #[trigger] old(self).write_defined(p),
        ensures
            final(self).bounds() == old(self).bounds(),
            final(self).bounds_defined() == old(self).bounds_defined(),
            forall|p: Point| #[trigger] final(self).read_defined(p) == old(self).read_defined(p),
            forall|p: Point| #[trigger] final(self).write_defined(p) == old(self).write_defined(p),
            forall|a: Rectangle| #[trigger]
                final(self).area_read_defined(a) == old(self).area_read_defined(a),
            forall|a: Rectangle| #[trigger]
                final(self).area_write_defined(a) == old(self).area_write_defined(a),
            Self::obeys_model() && r is Ok ==> forall|x: int, y: int| #[trigger]
                final(self).color_at(x, y) == painted(
                    old(self).color_at(x, y),
                    old(self).bounds(),
                    color,
                    x,
                    y,
                ),
    {
        let area = self.bounding_box();
        self.fill_solid(&area, color)
    }
}

/// A target holds no colour outside its bounding box: what `read_pixel`
/// promises.
pub open spec fn none_outside_bounds<T: ReadbackTarget>(t: &T) -> bool {
    forall|x: int, y: int| !geometry::in_rect(t.bounds(), x, y) ==> #[trigger] t.color_at(x, y) is None
}

/// `read_area` agrees with `read_pixel`: the `i`-th slot it walks receives
/// the colour that `read_pixel` reports at the `i`-th point of the area, or
/// keeps its value where `read_pixel` reports `None`; slots past the walk
/// keep their values; the count is the number of walked points holding a
/// colour.
pub proof fn lemma_read_area_matches_read_pixel<T: ReadbackTarget>(
    t: &T,
    area: Rectangle,
    out: Seq<T::Color>,
    i: int,
)
    requires
        0 <= i < out.len(),
    ensures
        readout(|x: int, y: int| t.color_at(x, y), area, out)[i] == (if i < walk_len(
            area,
            out.len() as int,
        ) {
            match t.color_at(nth_point(area, i).x as int, nth_point(area, i).y as int) {
                Some(c) => c,
                None => out[i],
            }
        } else {
            out[i]
        }),
        hits(|x: int, y: int| t.color_at(x, y), area, i + 1) == hits(
            |x: int, y: int| t.color_at(x, y),
            area,
            i,
        ) + if t.color_at(nth_point(area, i).x as int, nth_point(area, i).y as int) is Some {
            1nat
        } else {
            0nat
        },
{
}

/// A read gives back a write: after `draw_iter` succeeds with the single pixel
/// `(p, c)`, reading `p` gives `c` wherever the target held a colour, and
/// every other point reads as before.
pub proof fn lemma_read_back_drawn_pixel<T: ReadbackTarget>(
    before: &T,
    after: &T,
    p: Point,
    c: T::Color,
)
    requires
        forall|x: int, y: int|
            drawn(before.color_at(x, y), seq![Pixel(p, c)], x, y, #[trigger] after.color_at(x, y)),
    ensures
        before.color_at(p.x as int, p.y as int) is Some ==> after.color_at(p.x as int, p.y as int)
            == Some(c),
        forall|x: int, y: int|
            !(x == p.x && y == p.y) ==> #[trigger] after.color_at(x, y) == before.color_at(x, y),
{
    let one = seq![Pixel(p, c)];
    assert(drawn(before.color_at(p.x as int, p.y as int), one, p.x as int, p.y as int, after.color_at(p.x as int, p.y as int)));
    lemma_last_at_is_last(one, p.x as int, p.y as int, 0);
    assert forall|x: int, y: int| !(x == p.x && y == p.y) implies #[trigger] after.color_at(x, y)
        == before.color_at(x, y) by {
        assert(drawn(before.color_at(x, y), one, x, y, after.color_at(x, y)));
        lemma_last_at_none(one, x, y);
        assert forall|i: int| !#[trigger] drawn_at(one, i, x, y) by {}
    }
}

/// A read gives back a fill: after `fill_contiguous` succeeds over `area`
/// with `colors`, reading `area` back row-major gives `colors[i]` in the
/// `i`-th slot wherever that point held a colour.
pub proof fn lemma_read_back_filled_area<T: ReadbackTarget>(
    before: &T,
    after: &T,
    area: Rectangle,
    colors: Seq<T::Color>,
    out: Seq<T::Color>,
    i: int,
)
    requires
        forall|x: int, y: int| #[trigger]
            after.color_at(x, y) == filled(before.color_at(x, y), area, colors, x, y),
        0 <= i < walk_len(area, out.len() as int),
        i < colors.len(),
        color_of_nth(|x: int, y: int| before.color_at(x, y), area, i) is Some,
    ensures
        readout(|x: int, y: int| after.color_at(x, y), area, out)[i] == colors[i],
{
    lemma_nth_point(area, i);
    let q = nth_point(area, i);
    assert(after.color_at(q.x as int, q.y as int) == filled(
        before.color_at(q.x as int, q.y as int),
        area,
        colors,
        q.x as int,
        q.y as int,
    ));
}

/// Two reads that find the same colour at each walked position give the
/// same slots and the same count.
pub proof fn lemma_readout_congruent<C>(
    v1: ColorView<C>,
    r1: Rectangle,
    v2: ColorView<C>,
    r2: Rectangle,
    out: Seq<C>,
)
    requires
        walk_len(r1, out.len() as int) == walk_len(r2, out.len() as int),
        forall|i: int|
            0 <= i < walk_len(r1, out.len() as int) ==> #[trigger] color_of_nth(v1, r1, i)
                == color_of_nth(v2, r2, i),
    ensures
        readout(v1, r1, out) == readout(v2, r2, out),
        hits(v1, r1, walk_len(r1, out.len() as int)) == hits(v2, r2, walk_len(r2, out.len() as int)),
{
    assert(readout(v1, r1, out) =~= readout(v2, r2, out));
    lemma_hits_congruent(v1, r1, v2, r2, walk_len(r1, out.len() as int));
}

proof fn lemma_hits_congruent<C>(v1: ColorView<C>, r1: Rectangle, v2: ColorView<C>, r2: Rectangle, k: int)
    requires
        forall|i: int| 0 <= i < k ==> #[trigger] color_of_nth(v1, r1, i) == color_of_nth(v2, r2, i),
    ensures
        hits(v1, r1, k) == hits(v2, r2, k),
    decreases k,
{
    if k > 0 {
        lemma_hits_congruent(v1, r1, v2, r2, k - 1);
        assert(color_of_nth(v1, r1, k - 1) == color_of_nth(v2, r2, k - 1));
    }
}

/// Where a read reports a colour exactly at the pixels of `r`, the colours
/// found along a walk are counted by the walk's points in `r`.
pub(crate) proof fn lemma_read_counts_in<C, F: Fn(Point) -> Option<C>>(
    read: &F,
    view: ColorView<C>,
    r: Rectangle,
    area: Rectangle,
    k: int,
)
    requires
        forall|i: int|
            0 <= i < k ==> read.ensures((#[trigger] nth_point(area, i),), color_of_nth(view, area, i)),
        forall|p: Point, c: Option<C>| #[trigger]
            read.ensures((p,), c) ==> (c is Some <==> geometry::in_rect(r, p.x as int, p.y as int)),
    ensures
        hits(view, area, k) == count_in(r, area, k),
    decreases k,
{
    if k > 0 {
        lemma_read_counts_in(read, view, r, area, k - 1);
        assert(read.ensures((nth_point(area, k - 1),), color_of_nth(view, area, k - 1)));
    }
}

/// Two walks whose points lie alike in or out of two rectangles count alike.
pub proof fn lemma_count_in_congruent(r1: Rectangle, a1: Rectangle, r2: Rectangle, a2: Rectangle, k: int)
    requires
        forall|i: int|
            0 <= i < k ==> geometry::in_rect(
                r1,
                #[trigger] nth_point(a1, i).x as int,
                nth_point(a1, i).y as int,
            ) == geometry::in_rect(r2, nth_point(a2, i).x as int, nth_point(a2, i).y as int),
    ensures
        count_in(r1, a1, k) == count_in(r2, a2, k),
    decreases k,
{
    if k > 0 {
        lemma_count_in_congruent(r1, a1, r2, a2, k - 1);
        assert(nth_point(a1, k - 1) == nth_point(a1, k - 1));
    }
}

/// A walk whose first `k` points all lie in `r` counts `k` of them there.
pub proof fn lemma_count_in_all(r: Rectangle, area: Rectangle, k: int)
    requires
        0 <= k,
        forall|i: int|
            0 <= i < k ==> geometry::in_rect(
                r,
                #[trigger] nth_point(area, i).x as int,
                nth_point(area, i).y as int,
            ),
    ensures
        count_in(r, area, k) == k,
    decreases k,
{
    if k > 0 {
        lemma_count_in_all(r, area, k - 1);
        assert(nth_point(area, k - 1) == nth_point(area, k - 1));
    }
}

/// The per-pixel loop behind [`ReadbackTarget::read_area`]'s default, shared
/// with the adapters for regions that only partly overlap a layer: walk
/// `area` row-major alongside `out`, store each colour that `read` finds and
/// count them. Where `exact` holds, `view` is what `read` reads.
pub(crate) fn read_area_by_pixel<C: Copy, F: Fn(Point) -> Option<C>>(
    read: &F,
    exact: Ghost<bool>,
    view: Ghost<ColorView<C>>,
    area: &Rectangle,
    out: &mut [C],
) -> (written: usize)
    requires
        forall|i: int|
            0 <= i < walk_len(*area, old(out)@.len() as int) ==> read.requires(
                (#[trigger] nth_point(*area, i),),
            ),
        exact@ ==> forall|p: Point, c: Option<C>| #[trigger]
            read.ensures((p,), c) ==> c == view@(p.x as int, p.y as int),
    ensures
        exact@ ==> final(out)@ == readout(view@, *area, old(out)@),
        exact@ ==> written == hits(view@, *area, walk_len(*area, old(out)@.len() as int)),
        exact@ ==> forall|i: int|
            0 <= i < walk_len(*area, old(out)@.len() as int) ==> read.ensures(
                (#[trigger] nth_point(*area, i),),
                color_of_nth(view@, *area, i),
            ),
{
    let ghost start = out@;
    let (cols, count): (u64, u64) = geometry::walk_shape(area);
    let len: usize = out.len();
    let k: usize = if (len as u64) < count {
        len
    } else {
        count as usize
    };
    let mut written: usize = 0;
    let mut i: usize = 0;
    while i < k
        invariant
            k == walk_len(*area, start.len() as int),
            k <= out@.len(),
            out@.len() == start.len(),
            cols == geometry::columns(*area),
            count == point_count(*area),
            0 <= i <= k,
            exact@ ==> written == hits(view@, *area, i as int),
            exact@ ==> forall|j: int|
                0 <= j < i ==> read.ensures(
                    (#[trigger] nth_point(*area, j),),
                    color_of_nth(view@, *area, j),
                ),
            written <= i,
            forall|j: int| 0 <= j < k ==> read.requires((#[trigger] nth_point(*area, j),)),
            exact@ ==> forall|p: Point, c: Option<C>| #[trigger]
                read.ensures((p,), c) ==> c == view@(p.x as int, p.y as int),
            exact@ ==> forall|j: int|
                0 <= j < out@.len() ==> #[trigger] out@[j] == (if j < i && color_of_nth(
                    view@,
                    *area,
                    j,
                ) is Some {
                    color_of_nth(view@, *area, j)->0
                } else {
                    start[j]
                }),
        decreases k - i,
    {
        let p = geometry::walk_point(area, cols, i as u64);
        assert(read.requires((nth_point(*area, i as int),)));
        let c = read(p);
        match c {
            Some(color) => {
                out[i] = color;
                written = written + 1;
            },
            None => {},
        }
        i = i + 1;
    }
    proof {
        if exact@ {
            assert(out@ =~= readout(view@, *area, start));
        }
    }
    written
}

/// The colours that a deterministic `read` reports: at each point, the one
/// result it can give there.
pub open spec fn reported<C, F: Fn(Point) -> Option<C>>(read: &F) -> ColorView<C> {
    |x: int, y: int| choose|c: Option<C>| #[trigger] read.ensures((Point { x: x as i32, y: y as i32 },), c)
}

/// Read `area` row-major into `out` through `read`, as the default
/// [`ReadbackTarget::read_area`] does through `read_pixel`: each walked slot
/// whose point `read` reports a colour for receives it, and the count of
/// such slots is returned. For targets that can prepare a faster per-pixel
/// read once per region.
pub fn read_area_with<C: Copy, F: Fn(Point) -> Option<C>>(
    read: &F,
    area: &Rectangle,
    out: &mut [C],
) -> (n: usize)
    requires
        forall|i: int|
            0 <= i < walk_len(*area, old(out)@.len() as int) ==> read.requires(
                (#[trigger] nth_point(*area, i),),
            ),
        forall|p: Point, c1: Option<C>, c2: Option<C>|
            #[trigger] read.ensures((p,), c1) && #[trigger] read.ensures((p,), c2) ==> c1 == c2,
    ensures
        final(out)@ == readout(reported(read), *area, old(out)@),
        n == hits(reported(read), *area, walk_len(*area, old(out)@.len() as int)),
        forall|i: int|
            0 <= i < walk_len(*area, old(out)@.len() as int) ==> read.ensures(
                (#[trigger] nth_point(*area, i),),
                color_of_nth(reported(read), *area, i),
            ),
{
    let ghost view = reported(read);
    proof {
        assert forall|p: Point, c: Option<C>| #[trigger] read.ensures((p,), c) implies c == view(
            p.x as int,
            p.y as int,
        ) by {
            assert(Point { x: p.x as int as i32, y: p.y as int as i32 } == p);
            let d = choose|d: Option<C>| read.ensures((p,), d);
            assert(read.ensures((p,), d));
        }
    }
    read_area_by_pixel(read, Ghost(true), Ghost(view), area, out)
}

/// `n` copies of `color`.
pub(crate) fn repeated<C: Copy>(color: C, n: usize) -> (v: Vec<C>)
    ensures
        v@.len() == n,
        forall|i: int| 0 <= i < n ==> #[trigger] v@[i] == color,
{
    let mut v: Vec<C> = Vec::new();
    let mut i: usize = 0;
    while i < n
        invariant
            0 <= i <= n,
            v@.len() == i,
            forall|j: int| 0 <= j < i ==> #[trigger] v@[j] == color,
        decreases n - i,
    {
        v.push(color);
        i = i + 1;
    }
    v
}

/// The pixels that pair the walk of `area` with `colors`, up to the shorter.
pub(crate) fn zip_points<C: Copy>(area: &Rectangle, colors: &[C]) -> (pixels: Vec<Pixel<C>>)
    ensures
        pixels@.len() == min_len(point_count(*area), colors@.len() as int),
        forall|i: int|
            0 <= i < pixels@.len() ==> #[trigger] pixels@[i] == Pixel(nth_point(*area, i), colors@[i]),
{
    let (cols, count): (u64, u64) = geometry::walk_shape(area);
    let k: usize = if (colors.len() as u64) < count {
        colors.len()
    } else {
        count as usize
    };
    let mut pixels: Vec<Pixel<C>> = Vec::new();
    let mut i: usize = 0;
    while i < k
        invariant
            k == min_len(point_count(*area), colors@.len() as int),
            k <= colors@.len(),
            cols == geometry::columns(*area),
            count == point_count(*area),
            0 <= i <= k,
            pixels@.len() == i,
            forall|j: int|
                0 <= j < i ==> #[trigger] pixels@[j] == Pixel(nth_point(*area, j), colors@[j]),
        decreases k - i,
    {
        let p = geometry::walk_point(area, cols, i as u64);
        pixels.push(Pixel(p, colors[i]));
        i = i + 1;
    }
    pixels
}

/// Drawing the walk of `area` zipped with `colors` fills `area` from `colors`.
pub(crate) proof fn lemma_zip_drawn<C>(
    area: Rectangle,
    colors: Seq<C>,
    pixels: Seq<Pixel<C>>,
    before: Option<C>,
    x: int,
    y: int,
    after: Option<C>,
)
    requires
        pixels.len() == min_len(point_count(area), colors.len() as int),
        forall|i: int| 0 <= i < pixels.len() ==> #[trigger] pixels[i] == Pixel(nth_point(area, i), colors[i]),
        drawn(before, pixels, x, y, after),
    ensures
        after == filled(before, area, colors, x, y),
{
    // The walk visits each point once, so a pixel at `(x, y)` sits at its
    // position in the walk.
    assert forall|j: int| #[trigger] drawn_at(pixels, j, x, y) implies in_points(area, x, y)
        && j == point_index(area, x, y) by {
        lemma_nth_point(area, j);
        assert(pixels[j] == Pixel(nth_point(area, j), colors[j]));
    }
    lemma_last_at_none(pixels, x, y);
    if in_points(area, x, y) && point_index(area, x, y) < colors.len() {
        geometry::lemma_point_index(area, x, y);
        let i: int = point_index(area, x, y);
        assert(pixels[i] == Pixel(nth_point(area, i), colors[i]));
        assert(drawn_at(pixels, i, x, y));
        lemma_last_at_is_last(pixels, x, y, i);
    } else {
        assert forall|j: int| !#[trigger] drawn_at(pixels, j, x, y) by {
            if drawn_at(pixels, j, x, y) {
                lemma_nth_point(area, j);
            }
        }
    }
}

} // verus!
