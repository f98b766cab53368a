use drawing::canvas::blank_image;
use drawing::geometrical_shapes as gs;
use gs::Drawable;
use raster::Image;

fn painted(image: &Image, x: i32, y: i32) -> bool {
    let c = image.get_pixel(x, y).unwrap();
    (c.r, c.g, c.b) != (0, 0, 0)
}

fn painted_mask(image: &Image) -> Vec<(i32, i32)> {
    let mut mask: Vec<(i32, i32)> = Vec::new();
    for y in 0..image.height {
        for x in 0..image.width {
            if painted(image, x, y) {
                mask.push((x, y));
            }
        }
    }
    mask
}

#[test]
fn line_pixel_count_endpoints_adjacency() {
    let line = gs::Line::new(&gs::Point::new(10, 20), &gs::Point::new(40, 30));
    let pts = line.points();
    // max(|dx|, |dy|) + 1 = max(30, 10) + 1
    assert_eq!(pts.len(), 31);
    assert_eq!((pts[0].x, pts[0].y), (10, 20));
    assert_eq!((pts[30].x, pts[30].y), (40, 30));
    for k in 1..pts.len() {
        assert!((pts[k].x - pts[k - 1].x).abs() <= 1);
        assert!((pts[k].y - pts[k - 1].y).abs() <= 1);
        // monotonic along the dominant axis
        assert_eq!(pts[k].x, pts[k - 1].x + 1);
    }
}

#[test]
fn line_steep_and_negative_direction() {
    let line = gs::Line::new(&gs::Point::new(5, 90), &gs::Point::new(9, 10));
    let pts = line.points();
    assert_eq!(pts.len(), 81);
    assert_eq!((pts[0].x, pts[0].y), (5, 90));
    assert_eq!((pts[80].x, pts[80].y), (9, 10));
    for k in 1..pts.len() {
        assert!((pts[k].x - pts[k - 1].x).abs() <= 1);
        assert_eq!(pts[k].y, pts[k - 1].y - 1);
    }
}

#[test]
fn degenerate_line_paints_one_pixel() {
    let p = gs::Point::new(7, 9);
    let line = gs::Line::new(&p, &p);
    let pts = line.points();
    assert_eq!(pts.len(), 1);
    assert_eq!((pts[0].x, pts[0].y), (7, 9));
    let mut image = Image::blank(20, 20);
    line.draw(&mut image);
    assert_eq!(painted_mask(&image), vec![(7, 9)]);
}

#[test]
fn point_paints_exactly_one_pixel() {
    let mut image = Image::blank(100, 100);
    gs::Point::new(50, 50).draw(&mut image);
    assert_eq!(painted_mask(&image), vec![(50, 50)]);
    let c = image.get_pixel(50, 50).unwrap();
    assert_eq!((c.r, c.g, c.b), (255, 255, 255));
}

#[test]
fn rectangle_derived_corners() {
    let mut image = Image::blank(50, 50);
    let rect = gs::Rectangle::new(&gs::Point::new(10, 20), &gs::Point::new(30, 40));
    rect.draw(&mut image);
    // the two stored and the two derived corners
    assert!(painted(&image, 10, 20));
    assert!(painted(&image, 30, 20));
    assert!(painted(&image, 30, 40));
    assert!(painted(&image, 10, 40));
    // outline only: an edge pixel is painted, an interior pixel is not
    assert!(painted(&image, 10, 30));
    assert!(painted(&image, 20, 20));
    assert!(!painted(&image, 20, 30));
}

#[test]
fn pentagon_vertices_painted() {
    let mut image = Image::blank(100, 100);
    let pent = gs::Pentagon::new(
        &gs::Point::new(50, 10),
        &gs::Point::new(90, 40),
        &gs::Point::new(75, 85),
        &gs::Point::new(25, 85),
        &gs::Point::new(10, 40),
    );
    pent.draw(&mut image);
    for &(x, y) in &[(50, 10), (90, 40), (75, 85), (25, 85), (10, 40)] {
        assert!(painted(&image, x, y));
    }
}

#[test]
fn circle_accuracy_and_symmetry() {
    let mut image = Image::blank(100, 100);
    let circle = gs::Circle {
        center: gs::Point::new(50, 50),
        radius: 10,
    };
    circle.draw(&mut image);
    let mask = painted_mask(&image);
    assert!(!mask.is_empty());
    for &(x, y) in &mask {
        let dx: i64 = (x - 50) as i64;
        let dy: i64 = (y - 50) as i64;
        // within one pixel of the radius on the outside
        assert!(dx * dx + dy * dy <= 11 * 11);
        // the outward diagonal neighbour is strictly outside the radius
        assert!((dx.abs() + 1) * (dx.abs() + 1) + (dy.abs() + 1) * (dy.abs() + 1) > 100);
        // closed under the eight reflections
        for &(rx, ry) in &[
            (-dx, dy),
            (dx, -dy),
            (-dx, -dy),
            (dy, dx),
            (-dy, dx),
            (dy, -dx),
            (-dy, -dx),
        ] {
            assert!(painted(&image, 50 + rx as i32, 50 + ry as i32));
        }
    }
}

#[test]
fn circle_radius_zero_paints_center() {
    let mut image = Image::blank(10, 10);
    let circle = gs::Circle {
        center: gs::Point::new(5, 5),
        radius: 0,
    };
    circle.draw(&mut image);
    assert_eq!(painted_mask(&image), vec![(5, 5)]);
}

#[test]
fn circle_clips_to_canvas() {
    let mut image = Image::blank(100, 100);
    let circle = gs::Circle {
        center: gs::Point::new(0, 0),
        radius: 5,
    };
    circle.draw(&mut image);
    for &(x, y) in &painted_mask(&image) {
        assert!(x >= 0 && y >= 0);
        let dx: i64 = x as i64;
        let dy: i64 = y as i64;
        assert!(dx * dx + dy * dy <= 36);
    }
}

#[test]
fn drawing_twice_is_idempotent() {
    // fixed white shape: the whole image is bit-identical
    let line = gs::Line::new(&gs::Point::new(3, 4), &gs::Point::new(17, 9));
    let mut once = Image::blank(20, 20);
    line.draw(&mut once);
    let mut twice = Image::blank(20, 20);
    line.draw(&mut twice);
    line.draw(&mut twice);
    assert_eq!(once.bytes, twice.bytes);
    // randomly colored shape: the painted pixel set is the same
    let circle = gs::Circle {
        center: gs::Point::new(10, 10),
        radius: 6,
    };
    let mut c_once = Image::blank(20, 20);
    circle.draw(&mut c_once);
    let mut c_twice = Image::blank(20, 20);
    circle.draw(&mut c_twice);
    circle.draw(&mut c_twice);
    assert_eq!(painted_mask(&c_once), painted_mask(&c_twice));
}

#[test]
fn random_shapes_stay_in_bounds() {
    for _ in 0..50 {
        let p = gs::Point::random(10, 20);
        assert!(p.x >= 0 && p.x < 10);
        assert!(p.y >= 0 && p.y < 20);
        let l = gs::Line::random(5, 5);
        for q in [l.start, l.end] {
            assert!(q.x >= 0 && q.x < 5);
            assert!(q.y >= 0 && q.y < 5);
        }
        let c = gs::Circle::random(10, 8);
        assert!(c.center.x >= 0 && c.center.x < 10);
        assert!(c.center.y >= 0 && c.center.y < 8);
        assert!(c.radius >= 0 && c.radius < 4);
    }
    // a one-pixel range forces the sample
    let p = gs::Point::random(1, 1);
    assert_eq!((p.x, p.y), (0, 0));
}

#[test]
fn color_policies() {
    let white = gs::Point::new(1, 1).color();
    assert_eq!((white.r, white.g, white.b), (255, 255, 255));
    let white_line = gs::Line::new(&gs::Point::new(0, 0), &gs::Point::new(1, 1)).color();
    assert_eq!((white_line.r, white_line.g, white_line.b), (255, 255, 255));
    let circle = gs::Circle {
        center: gs::Point::new(0, 0),
        radius: 1,
    };
    for _ in 0..20 {
        let c = circle.color();
        assert!(c.r < 255 && c.g < 255 && c.b < 255);
    }
    let c = gs::Color::rgb(1, 2, 3);
    assert_eq!((c.r, c.g, c.b), (1, 2, 3));
}

#[test]
fn blank_image_matches_raster_blank() {
    let ours = blank_image(3, 2);
    let theirs = Image::blank(3, 2);
    assert_eq!(ours.width, 3);
    assert_eq!(ours.height, 2);
    assert_eq!(ours.bytes, theirs.bytes);
}
