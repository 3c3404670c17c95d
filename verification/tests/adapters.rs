use core::cell::Cell;

use embedded_graphics_core::pixelcolor::{Rgb565, RgbColor};
use embedded_graphics_readback::{Pixel, Point, ReadbackTarget, ReadbackTargetExt, Rectangle, Size};

/// An 8×8 framebuffer that records how many bulk reads it served, so the
/// adapters' fast paths can be observed rather than assumed.
struct Fb {
    pixels: [Rgb565; 64],
    bulk_reads: Cell<usize>,
}

impl Fb {
    fn new() -> Self {
        Self {
            pixels: [Rgb565::BLACK; 64],
            bulk_reads: Cell::new(0),
        }
    }

    fn index(p: Point) -> Option<usize> {
        ((0..8).contains(&p.x) && (0..8).contains(&p.y)).then(|| (p.y * 8 + p.x) as usize)
    }
}

impl ReadbackTarget for Fb {
    type Color = Rgb565;
    type Error = core::convert::Infallible;

    fn bounding_box(&self) -> Rectangle {
        Rectangle::new(Point::zero(), Size::new(8, 8))
    }

    fn read_pixel(&self, point: Point) -> Option<Self::Color> {
        Self::index(point).map(|i| self.pixels[i])
    }

    fn read_area(&self, area: &Rectangle, out: &mut [Self::Color]) -> usize {
        self.bulk_reads.set(self.bulk_reads.get() + 1);
        // The row-major walk of `area`, read pixel by pixel.
        let mut written = 0;
        let mut slot = 0;
        'rows: for dy in 0..area.size.height as i32 {
            for dx in 0..area.size.width as i32 {
                if slot == out.len() {
                    break 'rows;
                }
                let p = Point::new(area.top_left.x + dx, area.top_left.y + dy);
                if let Some(c) = self.read_pixel(p) {
                    out[slot] = c;
                    written += 1;
                }
                slot += 1;
            }
        }
        written
    }

    fn draw_iter(&mut self, pixels: &[Pixel<Self::Color>]) -> Result<(), Self::Error> {
        for &Pixel(p, c) in pixels {
            if let Some(i) = Self::index(p) {
                self.pixels[i] = c;
            }
        }
        Ok(())
    }
}

fn rect(x: i32, y: i32, w: u32, h: u32) -> Rectangle {
    Rectangle::new(Point::new(x, y), Size::new(w, h))
}

fn draw<T: ReadbackTarget>(target: &mut T, p: Point, c: T::Color)
where
    T::Error: core::fmt::Debug,
{
    target.draw_iter(&[Pixel(p, c)]).unwrap();
}

// --- shifted ------------------------------------------------------

#[test]
fn shifted_reads_through_the_offset() {
    let mut fb = Fb::new();
    draw(&mut fb, Point::new(5, 6), Rgb565::RED);

    let layer = fb.shifted(Point::new(3, 4));

    assert_eq!(layer.read_pixel(Point::new(2, 2)), Some(Rgb565::RED));
    assert_eq!(layer.read_pixel(Point::new(0, 0)), Some(Rgb565::BLACK));
}

#[test]
fn shifted_round_trips_a_write_through_the_adapter() {
    let mut fb = Fb::new();
    let mut layer = fb.shifted(Point::new(3, 4));

    draw(&mut layer, Point::new(1, 1), Rgb565::GREEN);

    assert_eq!(layer.read_pixel(Point::new(1, 1)), Some(Rgb565::GREEN));
    // ...and it landed at the shifted position underneath.
    assert_eq!(fb.read_pixel(Point::new(4, 5)), Some(Rgb565::GREEN));
}

#[test]
fn shifted_moves_the_bounding_box() {
    let mut fb = Fb::new();
    let layer = fb.shifted(Point::new(3, 4));

    assert_eq!(layer.bounding_box(), rect(-3, -4, 8, 8));
}

#[test]
fn shifted_read_area_keeps_the_parent_bulk_path() {
    let mut fb = Fb::new();
    draw(&mut fb, Point::new(3, 4), Rgb565::RED);

    let layer = fb.shifted(Point::new(3, 4));
    let mut out = [Rgb565::WHITE; 4];
    let n = layer.read_area(&rect(0, 0, 2, 2), &mut out);

    assert_eq!(n, 4);
    assert_eq!(out[0], Rgb565::RED);
    // Exactly one bulk call reached the framebuffer: no per-pixel fallback.
    assert_eq!(layer.parent().bulk_reads.get(), 1);
}

// --- windowed ---------------------------------------------------------

#[test]
fn windowed_moves_the_origin_and_reports_its_size() {
    let mut fb = Fb::new();
    draw(&mut fb, Point::new(2, 3), Rgb565::RED);

    let view = fb.windowed(&rect(2, 3, 4, 4));

    assert_eq!(view.bounding_box(), rect(0, 0, 4, 4));
    assert_eq!(view.offset(), Point::new(2, 3));
    assert_eq!(view.read_pixel(Point::zero()), Some(Rgb565::RED));
}

#[test]
fn windowed_reads_are_none_outside_the_window() {
    let mut fb = Fb::new();
    let view = fb.windowed(&rect(2, 2, 3, 3));

    // (3, 3) in view space is (5, 5) in the framebuffer, which still holds a
    // pixel — but it is outside this target's bounding box.
    assert_eq!(view.read_pixel(Point::new(3, 3)), None);
    assert_eq!(view.read_pixel(Point::new(-1, 0)), None);
}

#[test]
fn windowed_clamps_to_the_parent() {
    let mut fb = Fb::new();
    let view = fb.windowed(&rect(6, 6, 8, 8));

    assert_eq!(view.bounding_box(), rect(0, 0, 2, 2));
}

#[test]
fn windowed_read_area_straddling_the_edge_counts_only_the_window() {
    let mut fb = Fb::new();
    let view = fb.windowed(&rect(0, 0, 2, 2));

    let mut out = [Rgb565::WHITE; 4];
    let n = view.read_area(&rect(1, 1, 2, 2), &mut out);

    // Only (1, 1) is inside the 2×2 window.
    assert_eq!(n, 1);
    // The slow path ran, so the parent saw no bulk read.
    assert_eq!(view.parent().bulk_reads.get(), 0);
}

// --- masked ---------------------------------------------------------

#[test]
fn masked_keeps_parent_coordinates() {
    let mut fb = Fb::new();
    draw(&mut fb, Point::new(4, 4), Rgb565::RED);

    let view = fb.masked(&rect(2, 2, 4, 4));

    assert_eq!(view.read_pixel(Point::new(4, 4)), Some(Rgb565::RED));
    assert_eq!(view.bounding_box(), rect(2, 2, 4, 4));
}

#[test]
fn masked_reads_are_none_outside_the_mask() {
    let mut fb = Fb::new();
    let view = fb.masked(&rect(2, 2, 4, 4));

    assert_eq!(view.read_pixel(Point::new(1, 1)), None);
    assert_eq!(view.read_pixel(Point::new(6, 6)), None);
}

#[test]
fn masked_clamps_to_the_parent() {
    let mut fb = Fb::new();
    let view = fb.masked(&rect(4, 4, 100, 100));

    // The mask cannot report more pixels than the parent holds.
    assert_eq!(view.bounding_box(), rect(4, 4, 4, 4));
    assert_eq!(view.mask_area(), rect(4, 4, 4, 4));
}

#[test]
fn masked_drops_writes_outside_the_mask() {
    let mut fb = Fb::new();
    let mut view = fb.masked(&rect(2, 2, 2, 2));

    view.fill_solid(&rect(0, 0, 8, 8), Rgb565::RED).unwrap();

    assert_eq!(fb.read_pixel(Point::new(2, 2)), Some(Rgb565::RED));
    assert_eq!(fb.read_pixel(Point::new(0, 0)), Some(Rgb565::BLACK));
}

#[test]
fn masked_fill_contiguous_crops_a_straddling_run() {
    let mut fb = Fb::new();
    let mut view = fb.masked(&rect(0, 0, 2, 8));

    // A 4-wide run: the right half falls outside the mask.
    view.fill_contiguous(
        &rect(0, 0, 4, 1),
        &[Rgb565::RED, Rgb565::GREEN, Rgb565::BLUE, Rgb565::WHITE],
    )
    .unwrap();

    assert_eq!(fb.read_pixel(Point::new(0, 0)), Some(Rgb565::RED));
    assert_eq!(fb.read_pixel(Point::new(1, 0)), Some(Rgb565::GREEN));
    // Colours stay paired with their points; the masked ones are dropped.
    assert_eq!(fb.read_pixel(Point::new(2, 0)), Some(Rgb565::BLACK));
    assert_eq!(fb.read_pixel(Point::new(3, 0)), Some(Rgb565::BLACK));
}

#[test]
fn masked_read_area_wholly_inside_uses_the_parent_bulk_path() {
    let mut fb = Fb::new();
    let view = fb.masked(&rect(0, 0, 8, 8));

    let mut out = [Rgb565::WHITE; 4];
    assert_eq!(view.read_area(&rect(1, 1, 2, 2), &mut out), 4);
    assert_eq!(view.parent().bulk_reads.get(), 1);
}

// --- composition -----------------------------------------------------

#[test]
fn adapters_chain_and_keep_readback() {
    let mut fb = Fb::new();
    draw(&mut fb, Point::new(2, 2), Rgb565::RED);

    let mut layer = fb.shifted(Point::new(2, 2));
    let view = layer.masked(&rect(0, 0, 3, 3));

    // (0, 0) through both layers is (2, 2) on the framebuffer.
    assert_eq!(view.read_pixel(Point::zero()), Some(Rgb565::RED));
    assert_eq!(view.read_pixel(Point::new(4, 4)), None);
}

#[test]
fn chained_read_area_agrees_with_read_pixel() {
    let mut fb = Fb::new();
    draw(&mut fb, Point::new(3, 3), Rgb565::GREEN);

    let mut layer = fb.shifted(Point::new(2, 2));
    let view = layer.windowed(&rect(0, 0, 4, 4));

    let mut out = [Rgb565::WHITE; 4];
    let n = view.read_area(&rect(0, 0, 2, 2), &mut out);

    assert_eq!(n, 4);
    let by_pixel: [Rgb565; 4] = core::array::from_fn(|i| {
        view.read_pixel(Point::new(i as i32 % 2, i as i32 / 2))
            .unwrap()
    });
    assert_eq!(out, by_pixel);
    assert_eq!(out[3], Rgb565::GREEN);
}

// --- write semantics and errors ----------------------------------------

#[test]
fn windowed_writes_are_not_clipped_to_the_window() {
    let mut fb = Fb::new();
    let mut view = fb.windowed(&rect(2, 2, 2, 2));

    // (3, 3) in view space is outside the 2×2 window but inside the parent.
    draw(&mut view, Point::new(3, 3), Rgb565::RED);
    assert_eq!(view.read_pixel(Point::new(3, 3)), None);
    assert_eq!(fb.read_pixel(Point::new(5, 5)), Some(Rgb565::RED));
}

#[test]
fn windowed_clear_paints_only_the_window() {
    let mut fb = Fb::new();
    let mut view = fb.windowed(&rect(6, 7, 4, 4));
    view.clear(Rgb565::GREEN).unwrap();

    assert_eq!(fb.read_pixel(Point::new(6, 7)), Some(Rgb565::GREEN));
    assert_eq!(fb.read_pixel(Point::new(7, 7)), Some(Rgb565::GREEN));
    assert_eq!(fb.read_pixel(Point::new(5, 7)), Some(Rgb565::BLACK));
    assert_eq!(fb.read_pixel(Point::new(6, 6)), Some(Rgb565::BLACK));
}

#[test]
fn masked_clear_paints_only_the_mask() {
    let mut fb = Fb::new();
    let mut view = fb.masked(&rect(1, 1, 2, 1));
    view.clear(Rgb565::BLUE).unwrap();

    assert_eq!(fb.read_pixel(Point::new(1, 1)), Some(Rgb565::BLUE));
    assert_eq!(fb.read_pixel(Point::new(2, 1)), Some(Rgb565::BLUE));
    assert_eq!(fb.read_pixel(Point::new(3, 1)), Some(Rgb565::BLACK));
    assert_eq!(fb.read_pixel(Point::new(1, 2)), Some(Rgb565::BLACK));
}

#[test]
fn masked_draw_iter_drops_pixels_outside_the_mask() {
    let mut fb = Fb::new();
    let mut view = fb.masked(&rect(0, 0, 2, 2));
    view.draw_iter(&[
        Pixel(Point::new(1, 1), Rgb565::RED),
        Pixel(Point::new(2, 1), Rgb565::GREEN),
    ])
    .unwrap();

    assert_eq!(fb.read_pixel(Point::new(1, 1)), Some(Rgb565::RED));
    assert_eq!(fb.read_pixel(Point::new(2, 1)), Some(Rgb565::BLACK));
}

#[test]
fn masked_fill_contiguous_wholly_inside_reaches_the_parent_unchanged() {
    let mut fb = Fb::new();
    let mut view = fb.masked(&rect(1, 1, 3, 3));
    view.fill_contiguous(&rect(2, 2, 2, 1), &[Rgb565::RED, Rgb565::GREEN])
        .unwrap();

    assert_eq!(fb.read_pixel(Point::new(2, 2)), Some(Rgb565::RED));
    assert_eq!(fb.read_pixel(Point::new(3, 2)), Some(Rgb565::GREEN));
}

#[test]
fn shifted_fill_solid_and_clear_reach_the_parent() {
    let mut fb = Fb::new();
    let mut layer = fb.shifted(Point::new(-2, 1));
    layer.fill_solid(&rect(2, 0, 2, 1), Rgb565::RED).unwrap();
    assert_eq!(layer.read_pixel(Point::new(3, 0)), Some(Rgb565::RED));
    assert_eq!(layer.parent().read_pixel(Point::new(0, 1)), Some(Rgb565::RED));
    assert_eq!(layer.parent().read_pixel(Point::new(1, 1)), Some(Rgb565::RED));
    assert_eq!(layer.parent().read_pixel(Point::new(2, 1)), Some(Rgb565::BLACK));

    layer.clear(Rgb565::BLUE).unwrap();
    assert_eq!(fb.read_pixel(Point::new(7, 7)), Some(Rgb565::BLUE));
}

#[test]
fn shifted_bounding_box_moved_back_is_the_parents() {
    let mut fb = Fb::new();
    let layer = fb.shifted(Point::new(-5, 6));
    let b = layer.bounding_box();
    assert_eq!(b, rect(5, -6, 8, 8));
    assert_eq!(layer.offset(), Point::new(-5, 6));
}

/// A target whose writes always fail.
struct Broken;

impl ReadbackTarget for Broken {
    type Color = Rgb565;
    type Error = &'static str;

    fn bounding_box(&self) -> Rectangle {
        rect(0, 0, 4, 4)
    }

    fn read_pixel(&self, point: Point) -> Option<Rgb565> {
        rect(0, 0, 4, 4).contains(point).then_some(Rgb565::BLACK)
    }

    fn draw_iter(&mut self, _pixels: &[Pixel<Rgb565>]) -> Result<(), Self::Error> {
        Err("bus error")
    }
}

#[test]
fn adapters_hand_back_the_parents_error() {
    let mut target = Broken;
    {
        let mut layer = target.shifted(Point::new(1, 1));
        assert_eq!(layer.draw_iter(&[Pixel(Point::zero(), Rgb565::RED)]), Err("bus error"));
    }
    {
        let mut view = target.masked(&rect(0, 0, 2, 2));
        assert_eq!(view.fill_solid(&rect(0, 0, 4, 4), Rgb565::RED), Err("bus error"));
    }
    let mut view = target.windowed(&rect(1, 1, 2, 2));
    assert_eq!(view.clear(Rgb565::RED), Err("bus error"));
}

#[test]
fn default_fill_solid_hands_even_an_empty_area_to_the_drawing_call() {
    let mut target = Broken;
    // As in `embedded-graphics`, the default goes through `fill_contiguous`
    // to one `draw_iter` call, whose error comes back even for no pixels.
    assert_eq!(target.fill_solid(&rect(1, 1, 0, 3), Rgb565::RED), Err("bus error"));
    assert_eq!(target.fill_solid(&rect(1, 1, 1, 1), Rgb565::RED), Err("bus error"));
}
