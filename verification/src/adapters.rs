//! Adapters that carry [`ReadbackTarget`] down a pipeline.
//!
//! Each layer implements the drawing half with the write semantics of its
//! `embedded-graphics` counterpart (`Translated`, `Cropped`, `Clipped`) and the
//! reading half on top. Reads honour the layer's bounding box even where
//! writes do not. [`ReadbackTargetExt`] is implemented for every
//! [`ReadbackTarget`], so layers compose.
use vstd::prelude::*;

use crate::geometry::{
    add_points, contains_defined, in_points, in_rect, within, intersection_defined, intersection_of,
    lemma_clamped_points, lemma_intersection_keeps, lemma_intersection_rect,
    lemma_nth_point, lemma_point_index, lemma_translated_points, lemma_translated_walk,
    negate_point, nth_point, point_count, point_index, same_walk, shift_fits, shifted_point,
    translate, translated, Pixel, Point, Rectangle, Size,
};
use crate::{
    color_of_nth, count_in, drawn, filled, last_at, lemma_count_in_all, lemma_count_in_congruent,
    lemma_read_counts_in, lemma_readout_congruent, lemma_zip_drawn, min_len, none_outside_bounds,
    painted, read_area_by_pixel, walk_len, zip_points, ReadbackTarget,
};

verus! {

/// A target with its origin moved, from [`ReadbackTargetExt::shifted`].
///
/// Point `p` on the layer addresses `p + offset` on the parent.
#[derive(Debug)]
pub struct Shifted<'a, T> {
    parent: &'a mut T,
    offset: Point,
}

impl<'a, T> Shifted<'a, T> {
    /// The target underneath, as the layer sees it now.
    pub closed spec fn parent_view(&self) -> T {
        *self.parent
    }

    /// The offset applied to every coordinate crossing this layer.
    pub closed spec fn offset_view(&self) -> Point {
        self.offset
    }

    /// The borrow of the target that this layer holds: once the layer is
    /// done, the target holds `*final(self.parent_ref())`.
    pub closed spec fn parent_ref(&self) -> &'a mut T {
        self.parent
    }

    /// Once the layer is done with its borrow, what the target underneath
    /// holds is what the layer last saw of it.
    pub proof fn lemma_released(&self)
        requires
            has_resolved(*self),
        ensures
            self.parent_view() == *final(self.parent_ref()),
    {
        assert(has_resolved(self.parent));
    }

    /// Wrap `parent`, shifting every coordinate that crosses this layer by
    /// `offset`.
    #[must_use]
    pub fn new(parent: &'a mut T, offset: Point) -> (s: Self)
        ensures
            s.parent_view() == *old(parent),
            s.offset_view() == offset,
            *final(s.parent_ref()) == *final(parent),
    {
        Shifted { parent, offset }
    }

    /// The target underneath this layer.
    #[must_use]
    pub fn parent(&self) -> (p: &T)
        ensures
            *p == self.parent_view(),
    {
        &*self.parent
    }

    /// The offset applied to every coordinate crossing this layer.
    #[must_use]
    pub fn offset(&self) -> (o: Point)
        ensures
            o == self.offset_view(),
    {
        self.offset
    }
}

/// `pixels` with every point moved by `(dx, dy)`.
pub open spec fn shifted_pixels<C>(pixels: Seq<Pixel<C>>, dx: int, dy: int) -> Seq<Pixel<C>> {
    pixels.map_values(|p: Pixel<C>| Pixel(shifted_point(p.0, dx, dy), p.1))
}

/// `pixels` with every point moved by `offset`.
fn shift_pixels<C: Copy>(pixels: &[Pixel<C>], offset: Point) -> (r: Vec<Pixel<C>>)
    requires
        forall|i: int|
            0 <= i < pixels@.len() ==> shift_fits(
                #[trigger] pixels@[i].0,
                offset.x as int,
                offset.y as int,
            ),
    ensures
        r@.len() == pixels@.len(),
        forall|i: int|
            0 <= i < pixels@.len() ==> #[trigger] r@[i] == Pixel(
                shifted_point(pixels@[i].0, offset.x as int, offset.y as int),
                pixels@[i].1,
            ),
{
    let mut r: Vec<Pixel<C>> = Vec::new();
    let mut i: usize = 0;
    while i < pixels.len()
        invariant
            0 <= i <= pixels@.len(),
            r@.len() == i,
            forall|j: int|
                0 <= j < pixels@.len() ==> shift_fits(
                    #[trigger] pixels@[j].0,
                    offset.x as int,
                    offset.y as int,
                ),
            forall|j: int|
                0 <= j < i ==> #[trigger] r@[j] == Pixel(
                    shifted_point(pixels@[j].0, offset.x as int, offset.y as int),
                    pixels@[j].1,
                ),
        decreases pixels@.len() - i,
    {
        let Pixel(p, c) = pixels[i];
        assert(shift_fits(pixels@[i as int].0, offset.x as int, offset.y as int));
        r.push(Pixel(add_points(p, offset), c));
        i = i + 1;
    }
    r
}

impl<'a, T: ReadbackTarget> ReadbackTarget for Shifted<'a, T> {
    type Color = T::Color;

    type Error = T::Error;

    open spec fn obeys_model() -> bool {
        T::obeys_model()
    }

    open spec fn bounds(&self) -> Rectangle {
        translated(self.parent_view().bounds(), -self.offset_view().x, -self.offset_view().y)
    }

    open spec fn color_at(&self, x: int, y: int) -> Option<T::Color> {
        self.parent_view().color_at(x + self.offset_view().x, y + self.offset_view().y)
    }

    open spec fn bounds_defined(&self) -> bool {
        &&& T::obeys_model()
        &&& self.parent_view().bounds_defined()
        &&& self.offset_view().x != i32::MIN
        &&& self.offset_view().y != i32::MIN
        &&& shift_fits(
            self.parent_view().bounds().top_left,
            -self.offset_view().x,
            -self.offset_view().y,
        )
    }

    open spec fn read_defined(&self, p: Point) -> bool {
        &&& shift_fits(p, self.offset_view().x as int, self.offset_view().y as int)
        &&& self.parent_view().read_defined(
            shifted_point(p, self.offset_view().x as int, self.offset_view().y as int),
        )
    }

    open spec fn write_defined(&self, p: Point) -> bool {
        &&& shift_fits(p, self.offset_view().x as int, self.offset_view().y as int)
        &&& self.parent_view().write_defined(
            shifted_point(p, self.offset_view().x as int, self.offset_view().y as int),
        )
    }

    open spec fn area_read_defined(&self, area: Rectangle) -> bool {
        let o = self.offset_view();
        &&& shift_fits(area.top_left, o.x as int, o.y as int)
        &&& same_walk(area, translated(area, o.x as int, o.y as int))
        &&& self.parent_view().area_read_defined(translated(area, o.x as int, o.y as int))
    }

    open spec fn area_write_defined(&self, area: Rectangle) -> bool {
        let o = self.offset_view();
        &&& shift_fits(area.top_left, o.x as int, o.y as int)
        &&& same_walk(area, translated(area, o.x as int, o.y as int))
        &&& self.parent_view().area_write_defined(translated(area, o.x as int, o.y as int))
    }

    fn bounding_box(&self) -> (r: Rectangle) {
        let b = self.parent.bounding_box();
        translate(&b, negate_point(self.offset))
    }

    /// The parent holds a colour at every point of its bounding box.
    fn read_pixel(&self, point: Point) -> (r: Option<T::Color>)
        ensures
            T::obeys_model() && self.parent_view().bounds_defined() && in_rect(
                self.parent_view().bounds(),
                point.x + self.offset_view().x,
                point.y + self.offset_view().y,
            ) ==> r is Some,
    {
        self.parent.read_pixel(add_points(point, self.offset))
    }

    /// The parent counts its pixels along the shifted walk.
    fn read_area(&self, area: &Rectangle, out: &mut [T::Color]) -> (n: usize)
        ensures
            T::obeys_model() && self.parent_view().bounds_defined() ==> n == count_in(
                self.parent_view().bounds(),
                translated(*area, self.offset_view().x as int, self.offset_view().y as int),
                walk_len(*area, old(out)@.len() as int),
            ),
    {
        // A pure coordinate shift, so the parent's bulk path survives intact.
        let moved = translate(area, self.offset);
        let ghost o = self.offset;
        let ghost k = walk_len(*area, old(out)@.len() as int);
        proof {
            if self.bounds_defined() {
                let pb = self.parent_view().bounds();
                assert forall|i: int| 0 <= i < k implies in_rect(
                    self.bounds(),
                    #[trigger] nth_point(*area, i).x as int,
                    nth_point(*area, i).y as int,
                ) == in_rect(pb, nth_point(moved, i).x as int, nth_point(moved, i).y as int) by {
                    lemma_translated_walk(*area, o.x as int, o.y as int, i);
                    lemma_nth_point(*area, i);
                    lemma_nth_point(moved, i);
                }
                lemma_count_in_congruent(self.bounds(), *area, pb, moved, k);
            }
            assert forall|i: int| 0 <= i < walk_len(moved, old(out)@.len() as int) implies
                self.parent_view().read_defined(#[trigger] nth_point(moved, i)) by {
                lemma_translated_walk(*area, o.x as int, o.y as int, i);
                assert(self.read_defined(nth_point(*area, i)));
            }
            let sv = |x: int, y: int| self.color_at(x, y);
            let pv = |x: int, y: int| self.parent_view().color_at(x, y);
            assert forall|i: int| 0 <= i < k implies #[trigger] color_of_nth(sv, *area, i)
                == color_of_nth(pv, moved, i) by {
                lemma_translated_walk(*area, o.x as int, o.y as int, i);
            }
            lemma_translated_walk_len(*area, o.x as int, o.y as int);
            lemma_readout_congruent(sv, *area, pv, moved, old(out)@);
        }
        self.parent.read_area(&moved, out)
    }

    /// The pixels land on the parent at their shifted positions.
    fn draw_iter(&mut self, pixels: &[Pixel<T::Color>]) -> (r: Result<(), T::Error>)
        ensures
            final(self).offset_view() == old(self).offset_view(),
            *final(final(self).parent_ref()) == *final(old(self).parent_ref()),
            final(self).parent_view().bounds() == old(self).parent_view().bounds(),
            final(self).parent_view().bounds_defined() == old(self).parent_view().bounds_defined(),
            T::obeys_model() && r is Ok ==> forall|x: int, y: int|
                drawn(
                    old(self).parent_view().color_at(x, y),
                    shifted_pixels(pixels@, old(self).offset_view().x as int, old(self).offset_view().y as int),
                    x,
                    y,
                    #[trigger] final(self).parent_view().color_at(x, y),
                ),
    {
        let offset = self.offset;
        let ghost before = *self;
        proof {
            assert forall|i: int| 0 <= i < pixels@.len() implies shift_fits(
                #[trigger] pixels@[i].0,
                offset.x as int,
                offset.y as int,
            ) by {
                assert(old(self).write_defined(pixels@[i].0));
            }
        }
        let moved = shift_pixels(pixels, offset);
        proof {
            assert forall|i: int| 0 <= i < moved@.len() implies before.parent_view().write_defined(
                #[trigger] moved@[i].0,
            ) by {
                assert(before.write_defined(pixels@[i].0));
            }
        }
        assert(moved@.len() == moved.len());
        let r = self.parent.draw_iter(moved.as_slice());
        proof {
            assert(moved@ =~= shifted_pixels(pixels@, offset.x as int, offset.y as int));
            if T::obeys_model() && r is Ok {
                assert forall|x: int, y: int|
                    drawn(
                        before.color_at(x, y),
                        pixels@,
                        x,
                        y,
                        #[trigger] self.color_at(x, y),
                    ) by {
                    let (ox, oy): (int, int) = (offset.x as int, offset.y as int);
                    assert(drawn(
                        before.parent_view().color_at(x + ox, y + oy),
                        moved@,
                        x + ox,
                        y + oy,
                        self.parent_view().color_at(x + ox, y + oy),
                    ));
                    lemma_shifted_drawn(
                        pixels@,
                        moved@,
                        ox,
                        oy,
                        x,
                        y,
                        before.color_at(x, y),
                        self.color_at(x, y),
                    );
                }
            }
        }
        r
    }

    /// The parent is filled over `area` shifted by the offset.
    fn fill_contiguous(&mut self, area: &Rectangle, colors: &[T::Color]) -> (r: Result<(), T::Error>)
        ensures
            final(self).offset_view() == old(self).offset_view(),
            *final(final(self).parent_ref()) == *final(old(self).parent_ref()),
            final(self).parent_view().bounds() == old(self).parent_view().bounds(),
            final(self).parent_view().bounds_defined() == old(self).parent_view().bounds_defined(),
            T::obeys_model() && r is Ok ==> forall|x: int, y: int| #[trigger]
                final(self).parent_view().color_at(x, y) == filled(
                    old(self).parent_view().color_at(x, y),
                    translated(*area, old(self).offset_view().x as int, old(self).offset_view().y as int),
                    colors@,
                    x,
                    y,
                ),
    {
        let ghost before = *self;
        let ghost o = self.offset;
        let moved = translate(area, self.offset);
        proof {
            lemma_translated_walk_len(*area, o.x as int, o.y as int);
            assert forall|i: int|
                0 <= i < crate::min_len(point_count(moved), colors@.len() as int) implies before.parent_view().write_defined(
                #[trigger] nth_point(moved, i),
            ) by {
                lemma_translated_walk(*area, o.x as int, o.y as int, i);
                assert(before.write_defined(nth_point(*area, i)));
            }
        }
        let r = self.parent.fill_contiguous(&moved, colors);
        proof {
            if T::obeys_model() && r is Ok {
                assert forall|x: int, y: int| #[trigger]
                    self.color_at(x, y) == filled(before.color_at(x, y), *area, colors@, x, y) by {
                    lemma_translated_points(*area, o.x as int, o.y as int, x, y);
                    assert(self.parent_view().color_at(x + o.x, y + o.y) == filled(
                        before.parent_view().color_at(x + o.x, y + o.y),
                        moved,
                        colors@,
                        x + o.x,
                        y + o.y,
                    ));
                }
            }
        }
        r
    }

    /// The parent is filled over `area` shifted by the offset.
    fn fill_solid(&mut self, area: &Rectangle, color: T::Color) -> (r: Result<(), T::Error>)
        ensures
            final(self).offset_view() == old(self).offset_view(),
            *final(final(self).parent_ref()) == *final(old(self).parent_ref()),
            final(self).parent_view().bounds() == old(self).parent_view().bounds(),
            final(self).parent_view().bounds_defined() == old(self).parent_view().bounds_defined(),
            T::obeys_model() && r is Ok ==> forall|x: int, y: int| #[trigger]
                final(self).parent_view().color_at(x, y) == painted(
                    old(self).parent_view().color_at(x, y),
                    translated(*area, old(self).offset_view().x as int, old(self).offset_view().y as int),
                    color,
                    x,
                    y,
                ),
    {
        let ghost before = *self;
        let ghost o = self.offset;
        let moved = translate(area, self.offset);
        proof {
            lemma_translated_walk_len(*area, o.x as int, o.y as int);
            assert forall|i: int| 0 <= i < point_count(moved) implies before.parent_view().write_defined(
                #[trigger] nth_point(moved, i),
            ) by {
                lemma_translated_walk(*area, o.x as int, o.y as int, i);
                assert(before.write_defined(nth_point(*area, i)));
            }
        }
        let r = self.parent.fill_solid(&moved, color);
        proof {
            if T::obeys_model() && r is Ok {
                assert forall|x: int, y: int| #[trigger]
                    self.color_at(x, y) == painted(before.color_at(x, y), *area, color, x, y) by {
                    lemma_translated_points(*area, o.x as int, o.y as int, x, y);
                    assert(self.parent_view().color_at(x + o.x, y + o.y) == painted(
                        before.parent_view().color_at(x + o.x, y + o.y),
                        moved,
                        color,
                        x + o.x,
                        y + o.y,
                    ));
                }
            }
        }
        r
    }

    fn clear(&mut self, color: T::Color) -> (r: Result<(), T::Error>)
        ensures
            final(self).offset_view() == old(self).offset_view(),
            *final(final(self).parent_ref()) == *final(old(self).parent_ref()),
            final(self).parent_view().bounds() == old(self).parent_view().bounds(),
            final(self).parent_view().bounds_defined() == old(self).parent_view().bounds_defined(),
    {
        let ghost before = *self;
        let ghost o = self.offset;
        let ghost sb = before.bounds();
        let ghost pb = before.parent_view().bounds();
        proof {
            assert(translated(sb, o.x as int, o.y as int) == pb);
            lemma_translated_walk_len(sb, o.x as int, o.y as int);
            assert forall|i: int| 0 <= i < point_count(pb) implies before.parent_view().write_defined(
                #[trigger] nth_point(pb, i),
            ) by {
                lemma_translated_walk(sb, o.x as int, o.y as int, i);
                assert(before.write_defined(nth_point(sb, i)));
            }
        }
        let r = self.parent.clear(color);
        proof {
            if T::obeys_model() && r is Ok {
                assert forall|x: int, y: int| #[trigger]
                    self.color_at(x, y) == painted(before.color_at(x, y), sb, color, x, y) by {
                    lemma_translated_points(sb, o.x as int, o.y as int, x, y);
                    assert(self.parent_view().color_at(x + o.x, y + o.y) == painted(
                        before.parent_view().color_at(x + o.x, y + o.y),
                        pb,
                        color,
                        x + o.x,
                        y + o.y,
                    ));
                }
            }
        }
        r
    }
}

/// Moving a rectangle whose walk keeps its shape keeps the walk's length.
proof fn lemma_translated_walk_len(r: Rectangle, dx: int, dy: int)
    requires
        same_walk(r, translated(r, dx, dy)),
    ensures
        point_count(translated(r, dx, dy)) == point_count(r),
{
}

/// Moving every pixel by `(dx, dy)` moves the last pixel at each point with
/// it: the last moved pixel at `(x + dx, y + dy)` has the colour of the last
/// pixel at `(x, y)`.
pub proof fn lemma_last_at_shifted<C>(
    pixels: Seq<Pixel<C>>,
    moved: Seq<Pixel<C>>,
    dx: int,
    dy: int,
    x: int,
    y: int,
)
    requires
        moved.len() == pixels.len(),
        forall|i: int| 0 <= i < pixels.len() ==> shift_fits(#[trigger] pixels[i].0, dx, dy),
        forall|i: int|
            0 <= i < pixels.len() ==> #[trigger] moved[i] == Pixel(
                shifted_point(pixels[i].0, dx, dy),
                pixels[i].1,
            ),
    ensures
        last_at(moved, x + dx, y + dy) == last_at(pixels, x, y),
    decreases pixels.len(),
{
    if pixels.len() > 0 {
        let n = pixels.len() - 1;
        let (pd, md) = (pixels.drop_last(), moved.drop_last());
        assert forall|i: int| 0 <= i < pd.len() implies shift_fits(#[trigger] pd[i].0, dx, dy) by {
            assert(pd[i] == pixels[i]);
        }
        assert forall|i: int| 0 <= i < pd.len() implies #[trigger] md[i] == Pixel(
            shifted_point(pd[i].0, dx, dy),
            pd[i].1,
        ) by {
            assert(pd[i] == pixels[i] && md[i] == moved[i]);
        }
        lemma_last_at_shifted(pd, md, dx, dy, x, y);
        assert(shift_fits(pixels[n].0, dx, dy));
        assert(moved[n] == Pixel(shifted_point(pixels[n].0, dx, dy), pixels[n].1));
    }
}

/// Drawing moved pixels at a moved point is drawing the pixels at the point.
proof fn lemma_shifted_drawn<C>(
    pixels: Seq<Pixel<C>>,
    moved: Seq<Pixel<C>>,
    dx: int,
    dy: int,
    x: int,
    y: int,
    before: Option<C>,
    after: Option<C>,
)
    requires
        moved.len() == pixels.len(),
        forall|i: int| 0 <= i < pixels.len() ==> shift_fits(#[trigger] pixels[i].0, dx, dy),
        forall|i: int|
            0 <= i < pixels.len() ==> #[trigger] moved[i] == Pixel(
                shifted_point(pixels[i].0, dx, dy),
                pixels[i].1,
            ),
        drawn(before, moved, x + dx, y + dy, after),
    ensures
        drawn(before, pixels, x, y, after),
{
    lemma_last_at_shifted(pixels, moved, dx, dy, x, y);
}

/// A target restricted to a sub-region, from [`ReadbackTargetExt::windowed`].
///
/// The window's top-left corner becomes the origin. Reads outside the window
/// are `None`; writes pass to the parent unclipped, as with
/// `embedded-graphics`' `Cropped`.
#[derive(Debug)]
pub struct Windowed<'a, T> {
    parent: Shifted<'a, T>,
    size: Size,
}

impl<'a, T> Windowed<'a, T> {
    /// The shifting layer underneath the window.
    pub closed spec fn layer(&self) -> Shifted<'a, T> {
        self.parent
    }

    /// The target underneath, as the window sees it now.
    pub open spec fn parent_view(&self) -> T {
        self.layer().parent_view()
    }

    /// The window's top-left corner, in the parent's coordinates.
    pub open spec fn offset_view(&self) -> Point {
        self.layer().offset_view()
    }

    /// The window's size.
    pub closed spec fn size_view(&self) -> Size {
        self.size
    }

    /// The borrow of the target that this layer holds: once the layer is
    /// done, the target holds `*final(self.parent_ref())`.
    pub open spec fn parent_ref(&self) -> &'a mut T {
        self.layer().parent_ref()
    }

    /// Once the layer is done with its borrow, what the target underneath
    /// holds is what the layer last saw of it.
    pub proof fn lemma_released(&self)
        requires
            has_resolved(*self),
        ensures
            self.parent_view() == *final(self.parent_ref()),
    {
        assert(has_resolved(self.parent));
        self.parent.lemma_released();
    }

    /// The window, in its own coordinates.
    pub open spec fn window(&self) -> Rectangle {
        Rectangle { top_left: Point { x: 0, y: 0 }, size: self.size_view() }
    }

    /// The window, in the parent's coordinates.
    pub open spec fn region(&self) -> Rectangle {
        Rectangle { top_left: self.offset_view(), size: self.size_view() }
    }

    /// The window, in its own coordinates.
    fn window_rect(&self) -> (r: Rectangle)
        ensures
            r == self.window(),
    {
        Rectangle { top_left: Point { x: 0, y: 0 }, size: self.size }
    }
}

impl<'a, T: ReadbackTarget> Windowed<'a, T> {
    /// Wrap `parent`, restricting it to `area` and moving the origin to
    /// `area.top_left`. `area` is clamped to the parent's bounding box.
    #[must_use]
    pub fn new(parent: &'a mut T, area: &Rectangle) -> (w: Self)
        requires
            T::obeys_model(),
            old(parent).bounds_defined(),
            intersection_defined(*area, old(parent).bounds()),
        ensures
            w.parent_view() == *old(parent),
            w.offset_view() == intersection_of(*area, old(parent).bounds()).top_left,
            w.size_view() == intersection_of(*area, old(parent).bounds()).size,
            w.bounds_defined(),
            *final(w.parent_ref()) == *final(parent),
    {
        let bounds = parent.bounding_box();
        let area = area.intersection(&bounds);
        Windowed { size: area.size, parent: Shifted::new(parent, area.top_left) }
    }

    /// The window's size.
    pub fn size(&self) -> (s: Size)
        ensures
            s == self.size_view(),
    {
        self.size
    }
}

impl<'a, T> Windowed<'a, T> {
    /// The target underneath this layer.
    #[must_use]
    pub fn parent(&self) -> (p: &T)
        ensures
            *p == self.parent_view(),
    {
        self.parent.parent()
    }

    /// The window's top-left corner, in the parent's coordinates.
    #[must_use]
    pub fn offset(&self) -> (o: Point)
        ensures
            o == self.offset_view(),
    {
        self.parent.offset()
    }
}

impl<'a, T: ReadbackTarget> ReadbackTarget for Windowed<'a, T> {
    type Color = T::Color;

    type Error = T::Error;

    open spec fn obeys_model() -> bool {
        T::obeys_model()
    }

    open spec fn bounds(&self) -> Rectangle {
        self.window()
    }

    open spec fn color_at(&self, x: int, y: int) -> Option<T::Color> {
        if in_rect(self.window(), x, y) {
            self.layer().color_at(x, y)
        } else {
            None
        }
    }

    open spec fn bounds_defined(&self) -> bool {
        &&& T::obeys_model()
        &&& self.parent_view().bounds_defined()
        &&& within(self.region(), self.parent_view().bounds())
    }

    open spec fn read_defined(&self, p: Point) -> bool {
        &&& contains_defined(self.window(), p)
        &&& in_rect(self.window(), p.x as int, p.y as int) ==> self.layer().read_defined(p)
    }

    open spec fn write_defined(&self, p: Point) -> bool {
        self.layer().write_defined(p)
    }

    open spec fn area_read_defined(&self, area: Rectangle) -> bool {
        &&& intersection_defined(self.window(), area)
        &&& intersection_of(self.window(), area) == area ==> self.layer().area_read_defined(area)
    }

    open spec fn area_write_defined(&self, area: Rectangle) -> bool {
        self.layer().area_write_defined(area)
    }

    fn bounding_box(&self) -> (r: Rectangle) {
        self.window_rect()
    }

    fn read_pixel(&self, point: Point) -> (r: Option<T::Color>) {
        // Reads honour the window, unlike writes: `read_pixel` promises `None`
        // outside the bounding box.
        if self.window_rect().contains(point) {
            self.parent.read_pixel(point)
        } else {
            None
        }
    }

    fn read_area(&self, area: &Rectangle, out: &mut [T::Color]) -> (n: usize) {
        if self.window_rect().intersection(area) == *area {
            let ghost sv = |x: int, y: int| self.color_at(x, y);
            let ghost lv = |x: int, y: int| self.layer().color_at(x, y);
            let ghost k = walk_len(*area, old(out)@.len() as int);
            proof {
                assert forall|i: int| 0 <= i < k implies in_rect(
                    self.window(),
                    #[trigger] nth_point(*area, i).x as int,
                    nth_point(*area, i).y as int,
                ) && self.layer().read_defined(nth_point(*area, i)) by {
                    lemma_nth_point(*area, i);
                    let p = nth_point(*area, i);
                    lemma_intersection_keeps(self.window(), *area, p.x as int, p.y as int);
                    assert(self.read_defined(p));
                }
                assert forall|i: int| 0 <= i < k implies #[trigger] color_of_nth(sv, *area, i)
                    == color_of_nth(lv, *area, i) by {
                    assert(in_rect(self.window(), nth_point(*area, i).x as int, nth_point(*area, i).y as int));
                }
                lemma_readout_congruent(sv, *area, lv, *area, old(out)@);
                if self.bounds_defined() {
                    let o = self.offset_view();
                    let moved = translated(*area, o.x as int, o.y as int);
                    assert forall|i: int| 0 <= i < k implies in_rect(
                        self.parent_view().bounds(),
                        #[trigger] nth_point(moved, i).x as int,
                        nth_point(moved, i).y as int,
                    ) by {
                        assert(in_rect(self.window(), nth_point(*area, i).x as int, nth_point(*area, i).y as int));
                        lemma_translated_walk(*area, o.x as int, o.y as int, i);
                        lemma_nth_point(*area, i);
                        lemma_nth_point(moved, i);
                    }
                    lemma_count_in_all(self.parent_view().bounds(), moved, k);
                    lemma_count_in_all(self.window(), *area, k);
                }
            }
            self.parent.read_area(area, out)
        } else {
            let read = |p: Point| -> (c: Option<T::Color>)
                requires
                    self.read_defined(p),
                ensures
                    T::obeys_model() ==> c == self.color_at(p.x as int, p.y as int),
                    T::obeys_model() && self.bounds_defined() ==> (c is Some <==> in_rect(
                        self.bounds(),
                        p.x as int,
                        p.y as int,
                    )),
                { self.read_pixel(p) };
            let ghost view = |x: int, y: int| self.color_at(x, y);
            let n = read_area_by_pixel(&read, Ghost(T::obeys_model()), Ghost(view), area, out);
            proof {
                if T::obeys_model() && self.bounds_defined() {
                    lemma_read_counts_in(&read, view, self.bounds(), *area, walk_len(*area, old(out)@.len() as int));
                }
            }
            n
        }
    }

    /// Writes are not clipped to the window: every pixel lands on the parent
    /// at its position plus the window's offset.
    fn draw_iter(&mut self, pixels: &[Pixel<T::Color>]) -> (r: Result<(), T::Error>)
        ensures
            final(self).offset_view() == old(self).offset_view(),
            *final(final(self).parent_ref()) == *final(old(self).parent_ref()),
            final(self).parent_view().bounds() == old(self).parent_view().bounds(),
            final(self).parent_view().bounds_defined() == old(self).parent_view().bounds_defined(),
            T::obeys_model() && r is Ok ==> forall|x: int, y: int|
                drawn(
                    old(self).parent_view().color_at(x, y),
                    shifted_pixels(pixels@, old(self).offset_view().x as int, old(self).offset_view().y as int),
                    x,
                    y,
                    #[trigger] final(self).parent_view().color_at(x, y),
                ),
    {
        let ghost before = *self;
        proof {
            assert forall|i: int| 0 <= i < pixels@.len() implies before.layer().write_defined(
                #[trigger] pixels@[i].0,
            ) by {
                assert(old(self).write_defined(pixels@[i].0));
            }
        }
        let r = self.parent.draw_iter(pixels);
        proof {
            if T::obeys_model() && r is Ok {
                assert forall|x: int, y: int|
                    drawn(
                        before.color_at(x, y),
                        pixels@,
                        x,
                        y,
                        #[trigger] self.color_at(x, y),
                    ) by {
                    assert(drawn(before.layer().color_at(x, y), pixels@, x, y, self.layer().color_at(x, y)));
                }
            }
        }
        r
    }

    /// Writes are not clipped to the window: the parent is filled over
    /// `area` moved by the window's offset.
    fn fill_contiguous(&mut self, area: &Rectangle, colors: &[T::Color]) -> (r: Result<(), T::Error>)
        ensures
            final(self).offset_view() == old(self).offset_view(),
            *final(final(self).parent_ref()) == *final(old(self).parent_ref()),
            final(self).parent_view().bounds() == old(self).parent_view().bounds(),
            final(self).parent_view().bounds_defined() == old(self).parent_view().bounds_defined(),
            T::obeys_model() && r is Ok ==> forall|x: int, y: int| #[trigger]
                final(self).parent_view().color_at(x, y) == filled(
                    old(self).parent_view().color_at(x, y),
                    translated(*area, old(self).offset_view().x as int, old(self).offset_view().y as int),
                    colors@,
                    x,
                    y,
                ),
    {
        let ghost before = *self;
        let r = self.parent.fill_contiguous(area, colors);
        proof {
            if T::obeys_model() && r is Ok {
                assert forall|x: int, y: int| #[trigger]
                    self.color_at(x, y) == filled(before.color_at(x, y), *area, colors@, x, y) by {
                    assert(self.layer().color_at(x, y) == filled(before.layer().color_at(x, y), *area, colors@, x, y));
                }
            }
        }
        r
    }

    /// Writes are not clipped to the window: the parent is filled over
    /// `area` moved by the window's offset.
    fn fill_solid(&mut self, area: &Rectangle, color: T::Color) -> (r: Result<(), T::Error>)
        ensures
            final(self).offset_view() == old(self).offset_view(),
            *final(final(self).parent_ref()) == *final(old(self).parent_ref()),
            final(self).parent_view().bounds() == old(self).parent_view().bounds(),
            final(self).parent_view().bounds_defined() == old(self).parent_view().bounds_defined(),
            T::obeys_model() && r is Ok ==> forall|x: int, y: int| #[trigger]
                final(self).parent_view().color_at(x, y) == painted(
                    old(self).parent_view().color_at(x, y),
                    translated(*area, old(self).offset_view().x as int, old(self).offset_view().y as int),
                    color,
                    x,
                    y,
                ),
    {
        let ghost before = *self;
        let r = self.parent.fill_solid(area, color);
        proof {
            if T::obeys_model() && r is Ok {
                assert forall|x: int, y: int| #[trigger]
                    self.color_at(x, y) == painted(before.color_at(x, y), *area, color, x, y) by {
                    assert(self.layer().color_at(x, y) == painted(before.layer().color_at(x, y), *area, color, x, y));
                }
            }
        }
        r
    }

    /// Fill the window with one colour: the parent is painted over the
    /// window's region, in its own coordinates.
    fn clear(&mut self, color: T::Color) -> (r: Result<(), T::Error>)
        ensures
            final(self).offset_view() == old(self).offset_view(),
            *final(final(self).parent_ref()) == *final(old(self).parent_ref()),
            final(self).parent_view().bounds() == old(self).parent_view().bounds(),
            final(self).parent_view().bounds_defined() == old(self).parent_view().bounds_defined(),
            T::obeys_model() && r is Ok ==> forall|x: int, y: int| #[trigger]
                final(self).parent_view().color_at(x, y) == painted(
                    old(self).parent_view().color_at(x, y),
                    translated(old(self).window(), old(self).offset_view().x as int, old(self).offset_view().y as int),
                    color,
                    x,
                    y,
                ),
    {
        let area = self.bounding_box();
        self.fill_solid(&area, color)
    }
}

/// A target masked to a region, from [`ReadbackTargetExt::masked`].
///
/// Coordinates stay the parent's. Reads outside the mask are `None` and
/// writes outside it are dropped, as with `embedded-graphics`' `Clipped`.
#[derive(Debug)]
pub struct Masked<'a, T> {
    parent: &'a mut T,
    mask_area: Rectangle,
}

impl<'a, T> Masked<'a, T> {
    /// The target underneath, as the layer sees it now.
    pub closed spec fn parent_view(&self) -> T {
        *self.parent
    }

    /// The region this layer admits, in the parent's coordinates.
    pub closed spec fn mask_view(&self) -> Rectangle {
        self.mask_area
    }

    /// The borrow of the target that this layer holds: once the layer is
    /// done, the target holds `*final(self.parent_ref())`.
    pub closed spec fn parent_ref(&self) -> &'a mut T {
        self.parent
    }

    /// Once the layer is done with its borrow, what the target underneath
    /// holds is what the layer last saw of it.
    pub proof fn lemma_released(&self)
        requires
            has_resolved(*self),
        ensures
            self.parent_view() == *final(self.parent_ref()),
    {
        assert(has_resolved(self.parent));
    }
}

impl<'a, T: ReadbackTarget> Masked<'a, T> {
    /// Wrap `parent`, admitting only the pixels inside `area`. `area` is
    /// clamped to the parent's bounding box.
    #[must_use]
    pub fn new(parent: &'a mut T, area: &Rectangle) -> (m: Self)
        requires
            T::obeys_model(),
            old(parent).bounds_defined(),
            intersection_defined(*area, old(parent).bounds()),
        ensures
            m.parent_view() == *old(parent),
            m.mask_view() == intersection_of(*area, old(parent).bounds()),
            m.bounds_defined(),
            *final(m.parent_ref()) == *final(parent),
    {
        let bounds = parent.bounding_box();
        let mask_area = area.intersection(&bounds);
        Masked { parent, mask_area }
    }
}

impl<'a, T> Masked<'a, T> {
    /// The target underneath this layer.
    #[must_use]
    pub fn parent(&self) -> (p: &T)
        ensures
            *p == self.parent_view(),
    {
        &*self.parent
    }

    /// The region this layer admits, in the parent's coordinates.
    #[must_use]
    pub fn mask_area(&self) -> (r: Rectangle)
        ensures
            r == self.mask_view(),
    {
        self.mask_area
    }
}

/// Whether a pixel lies inside `mask`.
pub open spec fn inside_mask<C>(mask: Rectangle) -> spec_fn(Pixel<C>) -> bool {
    |p: Pixel<C>| in_rect(mask, p.0.x as int, p.0.y as int)
}

/// The pixels of `pixels` that lie inside `mask`, in order.
fn pixels_inside<C: Copy>(pixels: &[Pixel<C>], mask: &Rectangle) -> (r: Vec<Pixel<C>>)
    requires
        forall|i: int| 0 <= i < pixels@.len() ==> contains_defined(*mask, #[trigger] pixels@[i].0),
    ensures
        r@ == pixels@.filter(inside_mask(*mask)),
{
    let ghost keep = inside_mask::<C>(*mask);
    let mut r: Vec<Pixel<C>> = Vec::new();
    let mut i: usize = 0;
    while i < pixels.len()
        invariant
            0 <= i <= pixels@.len(),
            keep == inside_mask::<C>(*mask),
            forall|j: int| 0 <= j < pixels@.len() ==> contains_defined(*mask, #[trigger] pixels@[j].0),
            r@ == pixels@.take(i as int).filter(keep),
        decreases pixels@.len() - i,
    {
        let px = pixels[i];
        assert(contains_defined(*mask, pixels@[i as int].0));
        proof {
            assert(pixels@.take(i + 1).drop_last() =~= pixels@.take(i as int));
            reveal(Seq::filter);
        }
        if mask.contains(px.0) {
            r.push(px);
        }
        i = i + 1;
    }
    assert(pixels@.take(pixels@.len() as int) =~= pixels@);
    r
}

/// Keeping the pixels inside a mask keeps, in order, the last pixel at each
/// point inside it, and leaves no pixel at a point outside it.
pub proof fn lemma_last_at_inside<C>(pixels: Seq<Pixel<C>>, mask: Rectangle, x: int, y: int)
    ensures
        last_at(pixels.filter(inside_mask(mask)), x, y) == if in_rect(mask, x, y) {
            last_at(pixels, x, y)
        } else {
            None
        },
    decreases pixels.len(),
{
    reveal(Seq::filter);
    let keep = inside_mask::<C>(mask);
    if pixels.len() > 0 {
        let d = pixels.drop_last();
        let e = pixels.last();
        let sub = d.filter(keep);
        lemma_last_at_inside(d, mask, x, y);
        assert(pixels.filter(keep) == if keep(e) {
            sub.push(e)
        } else {
            sub
        });
        if keep(e) {
            let t = sub.push(e);
            assert(t.drop_last() =~= sub);
            assert(t[t.len() - 1] == e);
        }
    }
}

impl<'a, T: ReadbackTarget> ReadbackTarget for Masked<'a, T> {
    type Color = T::Color;

    type Error = T::Error;

    open spec fn obeys_model() -> bool {
        T::obeys_model()
    }

    open spec fn bounds(&self) -> Rectangle {
        self.mask_view()
    }

    open spec fn color_at(&self, x: int, y: int) -> Option<T::Color> {
        if in_rect(self.mask_view(), x, y) {
            self.parent_view().color_at(x, y)
        } else {
            None
        }
    }

    open spec fn bounds_defined(&self) -> bool {
        &&& T::obeys_model()
        &&& self.parent_view().bounds_defined()
        &&& within(self.mask_view(), self.parent_view().bounds())
    }

    open spec fn read_defined(&self, p: Point) -> bool {
        &&& contains_defined(self.mask_view(), p)
        &&& in_rect(self.mask_view(), p.x as int, p.y as int) ==> self.parent_view().read_defined(p)
    }

    open spec fn write_defined(&self, p: Point) -> bool {
        &&& contains_defined(self.mask_view(), p)
        &&& in_rect(self.mask_view(), p.x as int, p.y as int) ==> self.parent_view().write_defined(p)
    }

    open spec fn area_read_defined(&self, area: Rectangle) -> bool {
        &&& intersection_defined(self.mask_view(), area)
        &&& intersection_of(self.mask_view(), area) == area ==> self.parent_view().area_read_defined(
            area,
        )
    }

    open spec fn area_write_defined(&self, area: Rectangle) -> bool {
        &&& intersection_defined(self.mask_view(), area)
        &&& intersection_of(self.mask_view(), area) == area ==> self.parent_view().area_write_defined(
            area,
        )
        &&& self.parent_view().area_write_defined(intersection_of(area, self.mask_view()))
    }

    fn bounding_box(&self) -> (r: Rectangle) {
        self.mask_area
    }

    fn read_pixel(&self, point: Point) -> (r: Option<T::Color>) {
        if self.mask_area.contains(point) {
            self.parent.read_pixel(point)
        } else {
            None
        }
    }

    fn read_area(&self, area: &Rectangle, out: &mut [T::Color]) -> (n: usize) {
        if self.mask_area.intersection(area) == *area {
            let ghost sv = |x: int, y: int| self.color_at(x, y);
            let ghost pv = |x: int, y: int| self.parent_view().color_at(x, y);
            let ghost k = walk_len(*area, old(out)@.len() as int);
            proof {
                assert forall|i: int| 0 <= i < k implies in_rect(
                    self.mask_view(),
                    #[trigger] nth_point(*area, i).x as int,
                    nth_point(*area, i).y as int,
                ) && self.parent_view().read_defined(nth_point(*area, i)) by {
                    lemma_nth_point(*area, i);
                    let p = nth_point(*area, i);
                    lemma_intersection_keeps(self.mask_view(), *area, p.x as int, p.y as int);
                    assert(self.read_defined(p));
                }
                assert forall|i: int| 0 <= i < k implies #[trigger] color_of_nth(sv, *area, i)
                    == color_of_nth(pv, *area, i) by {
                    assert(in_rect(self.mask_view(), nth_point(*area, i).x as int, nth_point(*area, i).y as int));
                }
                lemma_readout_congruent(sv, *area, pv, *area, old(out)@);
                if self.bounds_defined() {
                    assert forall|i: int| 0 <= i < k implies in_rect(
                        self.parent_view().bounds(),
                        #[trigger] nth_point(*area, i).x as int,
                        nth_point(*area, i).y as int,
                    ) by {
                        assert(in_rect(self.mask_view(), nth_point(*area, i).x as int, nth_point(*area, i).y as int));
                    }
                    lemma_count_in_all(self.parent_view().bounds(), *area, k);
                    lemma_count_in_all(self.mask_view(), *area, k);
                }
            }
            self.parent.read_area(area, out)
        } else {
            let read = |p: Point| -> (c: Option<T::Color>)
                requires
                    self.read_defined(p),
                ensures
                    T::obeys_model() ==> c == self.color_at(p.x as int, p.y as int),
                    T::obeys_model() && self.bounds_defined() ==> (c is Some <==> in_rect(
                        self.bounds(),
                        p.x as int,
                        p.y as int,
                    )),
                { self.read_pixel(p) };
            let ghost view = |x: int, y: int| self.color_at(x, y);
            let n = read_area_by_pixel(&read, Ghost(T::obeys_model()), Ghost(view), area, out);
            proof {
                if T::obeys_model() && self.bounds_defined() {
                    lemma_read_counts_in(&read, view, self.bounds(), *area, walk_len(*area, old(out)@.len() as int));
                }
            }
            n
        }
    }

    /// Pixels outside the mask are dropped: the parent keeps its colours
    /// there.
    fn draw_iter(&mut self, pixels: &[Pixel<T::Color>]) -> (r: Result<(), T::Error>)
        ensures
            final(self).mask_view() == old(self).mask_view(),
            *final(final(self).parent_ref()) == *final(old(self).parent_ref()),
            final(self).parent_view().bounds() == old(self).parent_view().bounds(),
            final(self).parent_view().bounds_defined() == old(self).parent_view().bounds_defined(),
            T::obeys_model() && r is Ok ==> forall|x: int, y: int|
                !in_rect(old(self).mask_view(), x, y) ==> #[trigger] final(self).parent_view().color_at(x, y)
                    == old(self).parent_view().color_at(x, y),
    {
        let ghost before = *self;
        let mask_area = self.mask_area;
        proof {
            assert forall|i: int| 0 <= i < pixels@.len() implies contains_defined(
                mask_area,
                #[trigger] pixels@[i].0,
            ) by {
                assert(old(self).write_defined(pixels@[i].0));
            }
        }
        let inside = pixels_inside(pixels, &mask_area);
        let ghost keep = inside_mask::<T::Color>(mask_area);
        proof {
            assert forall|i: int| 0 <= i < inside@.len() implies before.parent_view().write_defined(
                #[trigger] inside@[i].0,
            ) by {
                pixels@.lemma_filter_pred(keep, i);
                assert(inside@.contains(inside@[i]));
                pixels@.lemma_filter_contains_rev(keep, inside@[i]);
                let m: int = choose|m: int| 0 <= m < pixels@.len() && pixels@[m] == inside@[i];
                assert(old(self).write_defined(pixels@[m].0));
            }
        }
        assert(inside@.len() == inside.len());
        let r = self.parent.draw_iter(inside.as_slice());
        proof {
            if T::obeys_model() && r is Ok {
                assert forall|x: int, y: int|
                    drawn(
                        before.color_at(x, y),
                        pixels@,
                        x,
                        y,
                        #[trigger] self.color_at(x, y),
                    ) by {
                    lemma_last_at_inside(pixels@, mask_area, x, y);
                    assert(drawn(
                        before.parent_view().color_at(x, y),
                        inside@,
                        x,
                        y,
                        self.parent_view().color_at(x, y),
                    ));
                }
                assert forall|x: int, y: int|
                    !in_rect(mask_area, x, y) implies #[trigger] self.parent_view().color_at(x, y)
                    == before.parent_view().color_at(x, y) by {
                    lemma_last_at_inside(pixels@, mask_area, x, y);
                    assert(drawn(
                        before.parent_view().color_at(x, y),
                        inside@,
                        x,
                        y,
                        self.parent_view().color_at(x, y),
                    ));
                }
            }
        }
        r
    }

    /// Pixels outside the mask are dropped: the parent keeps its colours
    /// there.
    fn fill_contiguous(&mut self, area: &Rectangle, colors: &[T::Color]) -> (r: Result<(), T::Error>)
        ensures
            final(self).mask_view() == old(self).mask_view(),
            *final(final(self).parent_ref()) == *final(old(self).parent_ref()),
            final(self).parent_view().bounds() == old(self).parent_view().bounds(),
            final(self).parent_view().bounds_defined() == old(self).parent_view().bounds_defined(),
            T::obeys_model() && r is Ok ==> forall|x: int, y: int|
                !in_rect(old(self).mask_view(), x, y) ==> #[trigger] final(self).parent_view().color_at(x, y)
                    == old(self).parent_view().color_at(x, y),
    {
        let ghost before = *self;
        if self.mask_area.intersection(area) == *area {
            proof {
                assert forall|i: int|
                    0 <= i < min_len(point_count(*area), colors@.len() as int) implies before.parent_view().write_defined(
                    #[trigger] nth_point(*area, i),
                ) by {
                    lemma_nth_point(*area, i);
                    let p = nth_point(*area, i);
                    lemma_intersection_keeps(self.mask_view(), *area, p.x as int, p.y as int);
                    assert(before.write_defined(p));
                }
            }
            let r = self.parent.fill_contiguous(area, colors);
            proof {
                if T::obeys_model() && r is Ok {
                    assert forall|x: int, y: int| #[trigger]
                        self.color_at(x, y) == filled(before.color_at(x, y), *area, colors@, x, y) by {
                        assert(self.parent_view().color_at(x, y) == filled(
                            before.parent_view().color_at(x, y),
                            *area,
                            colors@,
                            x,
                            y,
                        ));
                        if in_points(*area, x, y) {
                            lemma_intersection_keeps(self.mask_view(), *area, x, y);
                        }
                    }
                    assert forall|x: int, y: int|
                        !in_rect(self.mask_view(), x, y) implies #[trigger] self.parent_view().color_at(x, y)
                        == before.parent_view().color_at(x, y) by {
                        if in_points(*area, x, y) {
                            lemma_intersection_keeps(self.mask_view(), *area, x, y);
                        }
                    }
                }
            }
            r
        } else {
            // Partial overlap: pair each colour with its point and let
            // `draw_iter` drop the ones outside the mask.
            let pixels = zip_points(area, colors);
            proof {
                assert forall|i: int| 0 <= i < pixels@.len() implies before.write_defined(
                    #[trigger] pixels@[i].0,
                ) by {
                    assert(pixels@[i] == Pixel(nth_point(*area, i), colors@[i]));
                }
            }
            assert(pixels@.len() == pixels.len());
            let r = self.draw_iter(pixels.as_slice());
            proof {
                if T::obeys_model() && r is Ok {
                    assert forall|x: int, y: int| #[trigger]
                        self.color_at(x, y) == filled(before.color_at(x, y), *area, colors@, x, y) by {
                        lemma_zip_drawn(
                            *area,
                            colors@,
                            pixels@,
                            before.color_at(x, y),
                            x,
                            y,
                            self.color_at(x, y),
                        );
                    }
                }
            }
            r
        }
    }

    /// Pixels outside the mask are dropped: the parent keeps its colours
    /// there.
    fn fill_solid(&mut self, area: &Rectangle, color: T::Color) -> (r: Result<(), T::Error>)
        ensures
            final(self).mask_view() == old(self).mask_view(),
            *final(final(self).parent_ref()) == *final(old(self).parent_ref()),
            final(self).parent_view().bounds() == old(self).parent_view().bounds(),
            final(self).parent_view().bounds_defined() == old(self).parent_view().bounds_defined(),
            T::obeys_model() && r is Ok ==> forall|x: int, y: int|
                !in_rect(old(self).mask_view(), x, y) ==> #[trigger] final(self).parent_view().color_at(x, y)
                    == old(self).parent_view().color_at(x, y),
    {
        let ghost before = *self;
        let clamped = area.intersection(&self.mask_area);
        proof {
            assert forall|i: int| 0 <= i < point_count(clamped) implies before.parent_view().write_defined(
                #[trigger] nth_point(clamped, i),
            ) by {
                lemma_nth_point(clamped, i);
                let p = nth_point(clamped, i);
                let (x, y): (int, int) = (p.x as int, p.y as int);
                lemma_clamped_points(*area, self.mask_view(), x, y);
                lemma_point_index(*area, x, y);
                assert(before.write_defined(nth_point(*area, point_index(*area, x, y))));
            }
        }
        let r = self.parent.fill_solid(&clamped, color);
        proof {
            if T::obeys_model() && r is Ok {
                assert forall|x: int, y: int| #[trigger]
                    self.color_at(x, y) == painted(before.color_at(x, y), *area, color, x, y) by {
                    assert(self.parent_view().color_at(x, y) == painted(
                        before.parent_view().color_at(x, y),
                        clamped,
                        color,
                        x,
                        y,
                    ));
                    lemma_clamped_points(*area, self.mask_view(), x, y);
                }
                assert forall|x: int, y: int|
                    !in_rect(self.mask_view(), x, y) implies #[trigger] self.parent_view().color_at(x, y)
                    == before.parent_view().color_at(x, y) by {
                    lemma_clamped_points(*area, self.mask_view(), x, y);
                }
            }
        }
        r
    }

    /// Fill the mask with one colour: the parent keeps its colours outside
    /// the mask.
    fn clear(&mut self, color: T::Color) -> (r: Result<(), T::Error>)
        ensures
            final(self).mask_view() == old(self).mask_view(),
            *final(final(self).parent_ref()) == *final(old(self).parent_ref()),
            final(self).parent_view().bounds() == old(self).parent_view().bounds(),
            final(self).parent_view().bounds_defined() == old(self).parent_view().bounds_defined(),
            T::obeys_model() && r is Ok ==> forall|x: int, y: int|
                !in_rect(old(self).mask_view(), x, y) ==> #[trigger] final(self).parent_view().color_at(x, y)
                    == old(self).parent_view().color_at(x, y),
    {
        let area = self.bounding_box();
        self.fill_solid(&area, color)
    }
}

/// A shifted layer moves the bounding box with its coordinates, so it keeps
/// the promise of `read_pixel`: no colour outside the bounding box, provided
/// the parent keeps it. The bounding box moved back by the offset is the
/// parent's.
pub proof fn lemma_shifted_reads_none_outside<T: ReadbackTarget>(s: &Shifted<'_, T>)
    requires
        s.bounds_defined(),
        none_outside_bounds(&s.parent_view()),
    ensures
        none_outside_bounds(s),
        translated(s.bounds(), s.offset_view().x as int, s.offset_view().y as int)
            == s.parent_view().bounds(),
{
    let o = s.offset_view();
    assert forall|x: int, y: int| !in_rect(s.bounds(), x, y) implies #[trigger] s.color_at(x, y) is None by {
        assert(!in_rect(s.parent_view().bounds(), x + o.x, y + o.y));
    }
}

/// A window holds no colour outside its bounding box, whatever its parent
/// holds there.
pub proof fn lemma_windowed_reads_none_outside<T: ReadbackTarget>(w: &Windowed<'_, T>)
    ensures
        none_outside_bounds(w),
{
}

/// A mask holds no colour outside its bounding box, whatever its parent
/// holds there.
pub proof fn lemma_masked_reads_none_outside<T: ReadbackTarget>(m: &Masked<'_, T>)
    ensures
        none_outside_bounds(m),
{
}

/// A window made from `area` is clamped: each of its points lies, in the
/// parent's coordinates, inside both `area` and the parent's bounding box.
pub proof fn lemma_window_within_parent<T: ReadbackTarget>(
    w: &Windowed<'_, T>,
    area: Rectangle,
    x: int,
    y: int,
)
    requires
        intersection_defined(area, w.parent_view().bounds()),
        w.offset_view() == intersection_of(area, w.parent_view().bounds()).top_left,
        w.size_view() == intersection_of(area, w.parent_view().bounds()).size,
        in_rect(w.window(), x, y),
    ensures
        in_rect(area, x + w.offset_view().x, y + w.offset_view().y),
        in_rect(w.parent_view().bounds(), x + w.offset_view().x, y + w.offset_view().y),
{
    let o = w.offset_view();
    lemma_intersection_rect(area, w.parent_view().bounds(), x + o.x, y + o.y);
}

/// A mask made from `area` is clamped: it admits exactly the points inside
/// both `area` and the parent's bounding box.
pub proof fn lemma_mask_within_parent<T: ReadbackTarget>(
    m: &Masked<'_, T>,
    area: Rectangle,
    x: int,
    y: int,
)
    requires
        intersection_defined(area, m.parent_view().bounds()),
        m.mask_view() == intersection_of(area, m.parent_view().bounds()),
    ensures
        in_rect(m.mask_view(), x, y) == (in_rect(area, x, y) && in_rect(
            m.parent_view().bounds(),
            x,
            y,
        )),
{
    lemma_intersection_rect(area, m.parent_view().bounds(), x, y);
}

/// Layers compose and keep readback: a mask over a shifted target reads,
/// inside the mask, what the target underneath holds at the point plus the
/// offset, and nothing outside it.
pub proof fn lemma_mask_over_shift_reads_through<T: ReadbackTarget>(
    m: &Masked<'_, Shifted<'_, T>>,
    x: int,
    y: int,
)
    ensures
        m.color_at(x, y) == if in_rect(m.mask_view(), x, y) {
            m.parent_view().parent_view().color_at(
                x + m.parent_view().offset_view().x,
                y + m.parent_view().offset_view().y,
            )
        } else {
            None
        },
{
}

/// Adapters for [`ReadbackTarget`], mirroring `embedded-graphics`'
/// `DrawTargetExt`.
///
/// Implemented for every [`ReadbackTarget`], including the adapters
/// themselves, so layers compose. The names differ from `DrawTargetExt`'s so
/// both traits can sit in scope; each method is shorthand for the matching
/// constructor.
pub trait ReadbackTargetExt: ReadbackTarget + Sized {
    /// Translate the target's origin by `offset`: point `p` on the layer
    /// addresses `p + offset` on the parent.
    #[must_use]
    fn shifted(&mut self, offset: Point) -> (s: Shifted<'_, Self>)
        ensures
            s.parent_view() == *old(self),
            s.offset_view() == offset,
            *final(s.parent_ref()) == *final(self),
    ;

    /// Restrict the target to `area`, moving the origin to `area.top_left`.
    /// `area` is clamped to the parent's bounding box first.
    #[must_use]
    fn windowed(&mut self, area: &Rectangle) -> (w: Windowed<'_, Self>)
        requires
            Self::obeys_model(),
            old(self).bounds_defined(),
            intersection_defined(*area, old(self).bounds()),
        ensures
            w.parent_view() == *old(self),
            w.offset_view() == intersection_of(*area, old(self).bounds()).top_left,
            w.size_view() == intersection_of(*area, old(self).bounds()).size,
            w.bounds_defined(),
            *final(w.parent_ref()) == *final(self),
    ;

    /// Restrict the target to `area`, keeping the parent's coordinates.
    /// `area` is clamped to the parent's bounding box first.
    #[must_use]
    fn masked(&mut self, area: &Rectangle) -> (m: Masked<'_, Self>)
        requires
            Self::obeys_model(),
            old(self).bounds_defined(),
            intersection_defined(*area, old(self).bounds()),
        ensures
            m.parent_view() == *old(self),
            m.mask_view() == intersection_of(*area, old(self).bounds()),
            m.bounds_defined(),
            *final(m.parent_ref()) == *final(self),
    ;
}

impl<T: ReadbackTarget> ReadbackTargetExt for T {
    fn shifted(&mut self, offset: Point) -> (s: Shifted<'_, Self>) {
        Shifted::new(self, offset)
    }

    fn windowed(&mut self, area: &Rectangle) -> (w: Windowed<'_, Self>) {
        Windowed::new(self, area)
    }

    fn masked(&mut self, area: &Rectangle) -> (m: Masked<'_, Self>) {
        Masked::new(self, area)
    }
}

} // verus!
