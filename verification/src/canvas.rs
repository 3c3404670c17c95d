//! A target that keeps its pixels in memory, held to the model.
//!
//! [`Canvas`] is the plain framebuffer of the trait's documentation: a
//! `width × height` grid of colours, row-major, with its origin at the
//! top-left corner. It obeys the model, so everything the trait and the
//! adapters state holds of it and of every layer stacked on it.
use vstd::prelude::*;

use crate::geometry::{in_rect, Pixel, Point, Rectangle, Size};
use crate::{drawn, repeated, ReadbackTarget};

verus! {

/// A `width × height` target whose colours live in a `Vec`, row-major.
#[derive(Debug)]
pub struct Canvas<C> {
    size: Size,
    pixels: Vec<C>,
}

impl<C> Canvas<C> {
    /// The number of columns and rows.
    pub closed spec fn size_view(&self) -> Size {
        self.size
    }

    /// The colours, row by row.
    pub closed spec fn pixels_view(&self) -> Seq<C> {
        self.pixels@
    }

    /// The store holds one colour per point, every point has `i32`
    /// coordinates, and every slot has a `usize` index.
    pub open spec fn wf(&self) -> bool {
        &&& self.size_view().width <= i32::MAX
        &&& self.size_view().height <= i32::MAX
        &&& self.size_view().width * self.size_view().height <= usize::MAX
        &&& self.pixels_view().len() == self.size_view().width * self.size_view().height
    }

    #[verifier::type_invariant]
    closed spec fn inv(&self) -> bool {
        self.wf()
    }

    /// The canvas's points: the rectangle at the origin of its size.
    pub open spec fn area(&self) -> Rectangle {
        Rectangle { top_left: Point { x: 0, y: 0 }, size: self.size_view() }
    }

    /// The position of `(x, y)` in the store.
    pub open spec fn slot(&self, x: int, y: int) -> int {
        y * self.size_view().width + x
    }

    /// The slot of `p`, or `None` outside the canvas.
    fn index_of(&self, p: Point) -> (k: Option<usize>)
        ensures
            k is Some <==> in_rect(self.area(), p.x as int, p.y as int),
            k is Some ==> k->0 == self.slot(p.x as int, p.y as int),
            k is Some ==> k->0 < self.pixels_view().len(),
    {
        proof {
            use_type_invariant(self);
        }
        if p.x >= 0 && p.y >= 0 && (p.x as u32) < self.size.width && (p.y as u32)
            < self.size.height {
            proof {
                let (x, y, w, h): (int, int, int, int) = (
                    p.x as int,
                    p.y as int,
                    self.size.width as int,
                    self.size.height as int,
                );
                assert(y * w + x < w * h && 0 <= y * w <= y * w + x) by (nonlinear_arith)
                    requires
                        0 <= x < w,
                        0 <= y < h,
                ;
            }
            let (x, y, w): (usize, usize, usize) = (p.x as usize, p.y as usize, self.size.width as usize);
            Some(y * w + x)
        } else {
            None
        }
    }
}

impl<C: Copy> Canvas<C> {
    /// A canvas of `size` with every point holding `color`.
    #[must_use]
    pub fn new(size: Size, color: C) -> (c: Self)
        requires
            size.width <= i32::MAX,
            size.height <= i32::MAX,
            size.width * size.height <= usize::MAX,
        ensures
            c.wf(),
            c.size_view() == size,
            forall|x: int, y: int| #[trigger]
                c.color_at(x, y) == if in_rect(c.area(), x, y) {
                    Some(color)
                } else {
                    None
                },
    {
        let n: usize = size.width as usize * size.height as usize;
        let c = Canvas { size, pixels: repeated(color, n) };
        assert forall|x: int, y: int| #[trigger] c.color_at(x, y) == if in_rect(c.area(), x, y) {
            Some(color)
        } else {
            None
        } by {
            if in_rect(c.area(), x, y) {
                let w: int = size.width as int;
                let h: int = size.height as int;
                assert(0 <= y * w + x < w * h) by (nonlinear_arith)
                    requires
                        0 <= x < w,
                        0 <= y < h,
                ;
            }
        }
        c
    }
}

impl<C: Copy> ReadbackTarget for Canvas<C> {
    type Color = C;

    type Error = core::convert::Infallible;

    open spec fn obeys_model() -> bool {
        true
    }

    open spec fn bounds(&self) -> Rectangle {
        self.area()
    }

    open spec fn color_at(&self, x: int, y: int) -> Option<C> {
        if in_rect(self.area(), x, y) {
            Some(self.pixels_view()[self.slot(x, y)])
        } else {
            None
        }
    }

    open spec fn bounds_defined(&self) -> bool {
        true
    }

    open spec fn read_defined(&self, p: Point) -> bool {
        true
    }

    open spec fn write_defined(&self, p: Point) -> bool {
        true
    }

    open spec fn area_read_defined(&self, area: Rectangle) -> bool {
        true
    }

    open spec fn area_write_defined(&self, area: Rectangle) -> bool {
        true
    }

    fn bounding_box(&self) -> (r: Rectangle) {
        Rectangle { top_left: Point { x: 0, y: 0 }, size: self.size }
    }

    fn read_pixel(&self, point: Point) -> (r: Option<C>) {
        proof {
            use_type_invariant(self);
        }
        let k = self.index_of(point);
        assert(k is Some <==> in_rect(self.bounds(), point.x as int, point.y as int));
        match k {
            Some(k) => Some(self.pixels[k]),
            None => None,
        }
    }

    /// Pixels are drawn in order, so where several land on one point the
    /// last one stays.
    fn draw_iter(&mut self, pixels: &[Pixel<C>]) -> (r: Result<(), Self::Error>) {
        proof {
            use_type_invariant(&*self);
        }
        let mut i: usize = 0;
        while i < pixels.len()
            invariant
                self.wf(),
                self.size_view() == old(self).size_view(),
                0 <= i <= pixels@.len(),
                forall|x: int, y: int|
                    drawn(
                        old(self).color_at(x, y),
                        pixels@.take(i as int),
                        x,
                        y,
                        #[trigger] self.color_at(x, y),
                    ),
            decreases pixels@.len() - i,
        {
            let Pixel(p, c) = pixels[i];
            proof {
                use_type_invariant(&*self);
            }
            let ghost mid = *self;
            let k = self.index_of(p);
            match k {
                Some(k) => {
                    self.pixels[k] = c;
                },
                None => {},
            }
            proof {
                let done = pixels@.take(i as int);
                let next = pixels@.take(i + 1);
                assert(next.drop_last() =~= done);
                assert(next[i as int] == pixels@[i as int]);
                assert forall|x: int, y: int|
                    drawn(
                        old(self).color_at(x, y),
                        next,
                        x,
                        y,
                        #[trigger] self.color_at(x, y),
                    ) by {
                    assert(drawn(old(self).color_at(x, y), done, x, y, mid.color_at(x, y)));
                    assert(old(self).color_at(x, y) is Some <==> in_rect(self.area(), x, y));
                    if !(x == p.x && y == p.y) && in_rect(self.area(), x, y) && k is Some {
                        let w: int = self.size_view().width as int;
                        let h: int = self.size_view().height as int;
                        let (px, py): (int, int) = (p.x as int, p.y as int);
                        assert(0 <= y * w + x < w * h && y * w + x != py * w + px) by (nonlinear_arith)
                            requires
                                0 <= x < w,
                                0 <= y < h,
                                0 <= px < w,
                                0 <= py < h,
                                !(x == px && y == py),
                        ;
                    }
                }
            }
            i = i + 1;
        }
        proof {
            assert(pixels@.take(pixels@.len() as int) =~= pixels@);
        }
        Ok(())
    }
}

} // verus!
