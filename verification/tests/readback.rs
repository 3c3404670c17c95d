use embedded_graphics_core::pixelcolor::{Rgb565, RgbColor};
use embedded_graphics_readback::{read_area_with, Pixel, Point, ReadbackTarget, Rectangle, Size};

/// A tiny 4×4 RGB565 framebuffer for exercising the trait.
struct TestFb {
    pixels: [Rgb565; 16],
}

impl TestFb {
    fn new() -> Self {
        Self {
            pixels: [Rgb565::BLACK; 16],
        }
    }

    fn index(p: Point) -> Option<usize> {
        (0..4).contains(&p.x).then_some(())?;
        (0..4).contains(&p.y).then_some(())?;
        Some((p.y * 4 + p.x) as usize)
    }
}

impl ReadbackTarget for TestFb {
    type Color = Rgb565;
    type Error = core::convert::Infallible;

    fn bounding_box(&self) -> Rectangle {
        Rectangle::new(Point::zero(), Size::new(4, 4))
    }

    fn read_pixel(&self, point: Point) -> Option<Rgb565> {
        Self::index(point).map(|i| self.pixels[i])
    }

    fn draw_iter(&mut self, pixels: &[Pixel<Rgb565>]) -> Result<(), Self::Error> {
        for &Pixel(p, c) in pixels {
            if let Some(i) = Self::index(p) {
                self.pixels[i] = c;
            }
        }
        Ok(())
    }
}

fn draw(fb: &mut TestFb, p: Point, c: Rgb565) {
    fb.draw_iter(&[Pixel(p, c)]).unwrap();
}

#[test]
fn lib_read_pixel_round_trips_a_write() {
    let mut fb = TestFb::new();
    draw(&mut fb, Point::new(1, 2), Rgb565::RED);
    assert_eq!(fb.read_pixel(Point::new(1, 2)), Some(Rgb565::RED));
    assert_eq!(fb.read_pixel(Point::new(0, 0)), Some(Rgb565::BLACK));
}

#[test]
fn lib_read_pixel_out_of_bounds_is_none() {
    let fb = TestFb::new();
    assert_eq!(fb.read_pixel(Point::new(-1, 0)), None);
    assert_eq!(fb.read_pixel(Point::new(4, 0)), None);
    assert_eq!(fb.read_pixel(Point::new(0, 4)), None);
}

#[test]
fn read_area_default_fills_row_major() {
    let mut fb = TestFb::new();
    draw(&mut fb, Point::new(0, 0), Rgb565::RED);
    draw(&mut fb, Point::new(1, 0), Rgb565::GREEN);
    draw(&mut fb, Point::new(0, 1), Rgb565::BLUE);

    let mut out = [Rgb565::WHITE; 4];
    let n = fb.read_area(&Rectangle::new(Point::zero(), Size::new(2, 2)), &mut out);
    assert_eq!(n, 4);
    assert_eq!(
        out,
        [Rgb565::RED, Rgb565::GREEN, Rgb565::BLUE, Rgb565::BLACK]
    );
}

#[test]
fn lib_read_area_counts_only_in_bounds() {
    let fb = TestFb::new();
    // A region straddling the right edge: only the in-bounds column counts.
    let mut out = [Rgb565::WHITE; 4];
    let n = fb.read_area(&Rectangle::new(Point::new(3, 0), Size::new(2, 2)), &mut out);
    assert_eq!(n, 2);
}

#[test]
fn read_area_stops_at_the_end_of_out() {
    let mut fb = TestFb::new();
    draw(&mut fb, Point::new(1, 0), Rgb565::RED);
    let mut out = [Rgb565::WHITE; 2];
    let n = fb.read_area(&Rectangle::new(Point::zero(), Size::new(2, 2)), &mut out);
    assert_eq!(n, 2);
    assert_eq!(out, [Rgb565::BLACK, Rgb565::RED]);
}

#[test]
fn read_area_stops_at_the_end_of_the_area() {
    let mut fb = TestFb::new();
    draw(&mut fb, Point::new(2, 1), Rgb565::GREEN);
    let mut out = [Rgb565::WHITE; 5];
    let n = fb.read_area(&Rectangle::new(Point::new(1, 1), Size::new(2, 1)), &mut out);
    assert_eq!(n, 2);
    assert_eq!(
        out,
        [Rgb565::BLACK, Rgb565::GREEN, Rgb565::WHITE, Rgb565::WHITE, Rgb565::WHITE]
    );
}

#[test]
fn read_area_leaves_out_of_bounds_slots_untouched() {
    let fb = TestFb::new();
    // Row-major over a 2×2 region at (-1, 3): only (0, 3) is in bounds.
    let mut out = [Rgb565::WHITE; 4];
    let n = fb.read_area(&Rectangle::new(Point::new(-1, 3), Size::new(2, 2)), &mut out);
    assert_eq!(n, 1);
    assert_eq!(
        out,
        [Rgb565::WHITE, Rgb565::BLACK, Rgb565::WHITE, Rgb565::WHITE]
    );
}

#[test]
fn read_area_of_an_empty_region_reads_nothing() {
    let fb = TestFb::new();
    let mut out = [Rgb565::WHITE; 3];
    let n = fb.read_area(&Rectangle::new(Point::new(1, 1), Size::new(0, 3)), &mut out);
    assert_eq!(n, 0);
    assert_eq!(out, [Rgb565::WHITE; 3]);
}

#[test]
fn default_fill_contiguous_pairs_colours_row_major() {
    let mut fb = TestFb::new();
    fb.fill_contiguous(
        &Rectangle::new(Point::new(1, 1), Size::new(2, 2)),
        &[Rgb565::RED, Rgb565::GREEN, Rgb565::BLUE],
    )
    .unwrap();
    assert_eq!(fb.read_pixel(Point::new(1, 1)), Some(Rgb565::RED));
    assert_eq!(fb.read_pixel(Point::new(2, 1)), Some(Rgb565::GREEN));
    assert_eq!(fb.read_pixel(Point::new(1, 2)), Some(Rgb565::BLUE));
    // Fewer colours than pixels: the rest is not drawn.
    assert_eq!(fb.read_pixel(Point::new(2, 2)), Some(Rgb565::BLACK));
}

#[test]
fn default_fill_solid_paints_only_in_bounds() {
    let mut fb = TestFb::new();
    fb.fill_solid(&Rectangle::new(Point::new(3, 3), Size::new(3, 3)), Rgb565::RED)
        .unwrap();
    assert_eq!(fb.read_pixel(Point::new(3, 3)), Some(Rgb565::RED));
    assert_eq!(fb.read_pixel(Point::new(2, 3)), Some(Rgb565::BLACK));
    assert_eq!(fb.read_pixel(Point::new(3, 2)), Some(Rgb565::BLACK));
}

#[test]
fn default_clear_paints_the_whole_target() {
    let mut fb = TestFb::new();
    fb.clear(Rgb565::BLUE).unwrap();
    let mut out = [Rgb565::WHITE; 16];
    let n = fb.read_area(&Rectangle::new(Point::zero(), Size::new(4, 4)), &mut out);
    assert_eq!(n, 16);
    assert_eq!(out, [Rgb565::BLUE; 16]);
}

/// A 4×4 framebuffer that counts its `draw_iter` calls.
struct CountingFb {
    inner: TestFb,
    draws: usize,
}

impl ReadbackTarget for CountingFb {
    type Color = Rgb565;
    type Error = core::convert::Infallible;

    fn bounding_box(&self) -> Rectangle {
        self.inner.bounding_box()
    }

    fn read_pixel(&self, point: Point) -> Option<Rgb565> {
        self.inner.read_pixel(point)
    }

    fn draw_iter(&mut self, pixels: &[Pixel<Rgb565>]) -> Result<(), Self::Error> {
        self.draws += 1;
        self.inner.draw_iter(pixels)
    }
}

#[test]
fn default_fill_solid_and_clear_use_one_drawing_call() {
    let mut fb = CountingFb { inner: TestFb::new(), draws: 0 };
    fb.fill_solid(&Rectangle::new(Point::new(1, 1), Size::new(2, 3)), Rgb565::RED)
        .unwrap();
    assert_eq!(fb.draws, 1);
    assert_eq!(fb.read_pixel(Point::new(2, 3)), Some(Rgb565::RED));
    assert_eq!(fb.read_pixel(Point::new(3, 3)), Some(Rgb565::BLACK));
    fb.clear(Rgb565::GREEN).unwrap();
    assert_eq!(fb.draws, 2);
    assert_eq!(fb.read_pixel(Point::new(3, 3)), Some(Rgb565::GREEN));
}

#[test]
fn read_area_with_walks_row_major_and_counts_reported_colours() {
    // Reports a colour only in columns from 1 on.
    let read = |p: Point| if p.x >= 1 { Some((p.x * 10 + p.y) as u16) } else { None };
    let mut out = [0u16; 5];
    let n = read_area_with(&read, &Rectangle::new(Point::zero(), Size::new(2, 2)), &mut out);
    assert_eq!(n, 2);
    assert_eq!(out, [0, 10, 0, 11, 0]);
}

#[test]
fn read_area_with_stops_at_the_end_of_out() {
    let read = |p: Point| Some(p.y as u16);
    let mut out = [9u16; 3];
    let n = read_area_with(&read, &Rectangle::new(Point::new(4, 4), Size::new(2, 2)), &mut out);
    assert_eq!(n, 3);
    assert_eq!(out, [4, 4, 5]);
}
