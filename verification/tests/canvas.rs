use embedded_graphics_readback::{Canvas, Pixel, Point, ReadbackTarget, ReadbackTargetExt, Rectangle, Size};

fn rect(x: i32, y: i32, w: u32, h: u32) -> Rectangle {
    Rectangle::new(Point::new(x, y), Size::new(w, h))
}

fn canvas(w: u32, h: u32) -> Canvas<u16> {
    Canvas::new(Size::new(w, h), 0)
}

fn draw<T: ReadbackTarget>(target: &mut T, p: Point, c: T::Color)
where
    T::Error: core::fmt::Debug,
{
    target.draw_iter(&[Pixel(p, c)]).unwrap();
}

#[test]
fn canvas_starts_filled_and_holds_nothing_outside() {
    let c = Canvas::new(Size::new(3, 2), 7u16);
    assert_eq!(c.bounding_box(), rect(0, 0, 3, 2));
    assert_eq!(c.read_pixel(Point::new(0, 0)), Some(7));
    assert_eq!(c.read_pixel(Point::new(2, 1)), Some(7));
    assert_eq!(c.read_pixel(Point::new(3, 0)), None);
    assert_eq!(c.read_pixel(Point::new(0, 2)), None);
    assert_eq!(c.read_pixel(Point::new(-1, 0)), None);
}

#[test]
fn empty_canvas_holds_nothing() {
    let c = canvas(0, 4);
    assert_eq!(c.bounding_box(), rect(0, 0, 0, 4));
    assert_eq!(c.read_pixel(Point::new(0, 0)), None);
    let mut out = [9u16; 2];
    assert_eq!(c.read_area(&rect(0, 0, 2, 1), &mut out), 0);
    assert_eq!(out, [9, 9]);
}

#[test]
fn canvas_reads_back_a_drawn_pixel() {
    let mut c = canvas(4, 4);
    draw(&mut c, Point::new(1, 2), 5);
    assert_eq!(c.read_pixel(Point::new(1, 2)), Some(5));
    assert_eq!(c.read_pixel(Point::new(2, 1)), Some(0));
}

#[test]
fn canvas_keeps_the_last_of_several_pixels_on_one_point() {
    let mut c = canvas(4, 4);
    c.draw_iter(&[
        Pixel(Point::new(1, 1), 3),
        Pixel(Point::new(2, 2), 4),
        Pixel(Point::new(1, 1), 8),
    ])
    .unwrap();
    assert_eq!(c.read_pixel(Point::new(1, 1)), Some(8));
    assert_eq!(c.read_pixel(Point::new(2, 2)), Some(4));
}

#[test]
fn canvas_ignores_pixels_outside() {
    let mut c = canvas(2, 2);
    c.draw_iter(&[Pixel(Point::new(2, 0), 3), Pixel(Point::new(-1, 1), 3)])
        .unwrap();
    let mut out = [9u16; 4];
    assert_eq!(c.read_area(&rect(0, 0, 2, 2), &mut out), 4);
    assert_eq!(out, [0; 4]);
}

#[test]
fn canvas_read_area_counts_the_points_in_bounds() {
    let mut c = canvas(4, 4);
    draw(&mut c, Point::new(3, 1), 6);
    // A 3×2 region at (2, 1): columns 2 and 3 are in bounds, column 4 is not.
    let mut out = [9u16; 6];
    let n = c.read_area(&rect(2, 1, 3, 2), &mut out);
    assert_eq!(n, 4);
    assert_eq!(out, [0, 6, 9, 0, 0, 9]);
}

#[test]
fn canvas_read_area_stops_at_the_shorter_of_area_and_out() {
    let c = Canvas::new(Size::new(4, 4), 1u16);
    let mut short = [9u16; 3];
    assert_eq!(c.read_area(&rect(0, 0, 2, 2), &mut short), 3);
    assert_eq!(short, [1, 1, 1]);
    let mut long = [9u16; 6];
    assert_eq!(c.read_area(&rect(0, 0, 2, 2), &mut long), 4);
    assert_eq!(long, [1, 1, 1, 1, 9, 9]);
}

#[test]
fn canvas_fill_contiguous_reads_back_row_major() {
    let mut c = canvas(4, 4);
    c.fill_contiguous(&rect(1, 1, 2, 2), &[1, 2, 3]).unwrap();
    let mut out = [9u16; 4];
    assert_eq!(c.read_area(&rect(1, 1, 2, 2), &mut out), 4);
    assert_eq!(out, [1, 2, 3, 0]);
}

#[test]
fn canvas_fill_solid_clips_to_the_canvas() {
    let mut c = canvas(3, 3);
    c.fill_solid(&rect(1, 1, 5, 5), 4).unwrap();
    assert_eq!(c.read_pixel(Point::new(2, 2)), Some(4));
    assert_eq!(c.read_pixel(Point::new(1, 1)), Some(4));
    assert_eq!(c.read_pixel(Point::new(0, 1)), Some(0));
    assert_eq!(c.read_pixel(Point::new(1, 0)), Some(0));
}

#[test]
fn canvas_clear_paints_every_point() {
    let mut c = canvas(3, 2);
    draw(&mut c, Point::new(1, 1), 5);
    c.clear(2).unwrap();
    let mut out = [9u16; 6];
    assert_eq!(c.read_area(&rect(0, 0, 3, 2), &mut out), 6);
    assert_eq!(out, [2; 6]);
}

#[test]
fn writes_through_a_shifted_canvas_land_underneath() {
    let mut c = canvas(4, 4);
    {
        let mut s = c.shifted(Point::new(1, 2));
        draw(&mut s, Point::new(0, 0), 7);
        assert_eq!(s.read_pixel(Point::new(0, 0)), Some(7));
        assert_eq!(s.bounding_box(), rect(-1, -2, 4, 4));
        assert_eq!(s.read_pixel(Point::new(-1, -2)), Some(0));
        assert_eq!(s.read_pixel(Point::new(3, 0)), None);
    }
    assert_eq!(c.read_pixel(Point::new(1, 2)), Some(7));
}

#[test]
fn a_window_on_a_canvas_holds_a_colour_at_each_of_its_points() {
    let mut c = canvas(4, 4);
    draw(&mut c, Point::new(3, 3), 5);
    let w = c.windowed(&rect(2, 2, 5, 5));
    assert_eq!(w.bounding_box(), rect(0, 0, 2, 2));
    assert_eq!(w.read_pixel(Point::new(1, 1)), Some(5));
    assert_eq!(w.read_pixel(Point::new(0, 0)), Some(0));
    assert_eq!(w.read_pixel(Point::new(2, 0)), None);
    let mut out = [9u16; 9];
    // A 3×3 region from the window's origin: 4 of its points are the window's.
    assert_eq!(w.read_area(&rect(0, 0, 3, 3), &mut out), 4);
    assert_eq!(out, [0, 0, 9, 0, 5, 9, 9, 9, 9]);
}

#[test]
fn a_mask_on_a_canvas_holds_a_colour_at_each_of_its_points() {
    let mut c = canvas(4, 4);
    {
        let mut m = c.masked(&rect(1, 1, 2, 2));
        m.fill_solid(&rect(0, 0, 4, 4), 3).unwrap();
        assert_eq!(m.read_pixel(Point::new(1, 1)), Some(3));
        assert_eq!(m.read_pixel(Point::new(0, 0)), None);
        let mut out = [9u16; 4];
        assert_eq!(m.read_area(&rect(1, 1, 2, 2), &mut out), 4);
        assert_eq!(out, [3; 4]);
    }
    assert_eq!(c.read_pixel(Point::new(0, 0)), Some(0));
    assert_eq!(c.read_pixel(Point::new(2, 2)), Some(3));
    assert_eq!(c.read_pixel(Point::new(3, 2)), Some(0));
}

#[test]
fn layers_over_a_canvas_compose() {
    let mut c = canvas(6, 6);
    {
        let mut s = c.shifted(Point::new(2, 2));
        let mut m = s.masked(&rect(0, 0, 2, 2));
        m.clear(9).unwrap();
        assert_eq!(m.read_pixel(Point::new(1, 1)), Some(9));
        assert_eq!(m.read_pixel(Point::new(2, 1)), None);
    }
    assert_eq!(c.read_pixel(Point::new(3, 3)), Some(9));
    assert_eq!(c.read_pixel(Point::new(2, 2)), Some(9));
    assert_eq!(c.read_pixel(Point::new(4, 3)), Some(0));
}
