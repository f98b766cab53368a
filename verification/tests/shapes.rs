use drawing::geometrical_shapes as gs;
use gs::Drawable;
use raster::Image;

#[test]
fn test_draw_point() {
    let mut image = Image::blank(100, 100);
    let point = gs::Point::new(50, 50);
    point.draw(&mut image);
    // Check that the pixel at (50, 50) is not black (the blank default color)
    let pixel_color = image.get_pixel(50, 50).unwrap();
    let black = gs::Color::rgb(0, 0, 0);
    assert_ne!(pixel_color.r, black.r);
    assert_ne!(pixel_color.g, black.g);
    assert_ne!(pixel_color.b, black.b);
}

#[test]
fn test_draw_line() {
    let mut image = Image::blank(100, 100);
    let line = gs::Line::new(&gs::Point::new(0, 0), &gs::Point::new(99, 99));
    line.draw(&mut image);
    // Check that the pixel at (50, 50) is not black
    let pixel_color = image.get_pixel(50, 50).unwrap();
    let black = gs::Color::rgb(0, 0, 0);
    assert_ne!(pixel_color.r, black.r);
    assert_ne!(pixel_color.g, black.g);
    assert_ne!(pixel_color.b, black.b);
}

#[test]
fn test_draw_triangle() {
    let mut image = Image::blank(100, 100);
    let triangle = gs::Triangle::new(
        &gs::Point::new(0, 0),
        &gs::Point::new(99, 0),
        &gs::Point::new(50, 99),
    );
    triangle.draw(&mut image);
    // Check that the pixels at the vertices are not black
    for &point in &[
        gs::Point::new(0, 0),
        gs::Point::new(99, 0),
        gs::Point::new(50, 99),
    ] {
        let pixel_color = image.get_pixel(point.x, point.y).unwrap();
        let black = gs::Color::rgb(0, 0, 0);
        assert_ne!(pixel_color.r, black.r);
        assert_ne!(pixel_color.g, black.g);
        assert_ne!(pixel_color.b, black.b);
    }
}

#[test]
fn test_draw_rectangle() {
    let mut image = Image::blank(100, 100);
    let rectangle = gs::Rectangle::new(&gs::Point::new(0, 0), &gs::Point::new(99, 99));
    rectangle.draw(&mut image);
    // Check that the pixels at the corners are not black
    for &point in &[
        gs::Point::new(0, 0),
        gs::Point::new(99, 0),
        gs::Point::new(0, 99),
        gs::Point::new(99, 99),
    ] {
        let pixel_color = image.get_pixel(point.x, point.y).unwrap();
        let black = gs::Color::rgb(0, 0, 0);
        assert_ne!(pixel_color.r, black.r);
        assert_ne!(pixel_color.g, black.g);
        assert_ne!(pixel_color.b, black.b);
    }
}
