//! The geometric primitives and their shared drawing contract.
//!
//! Every shape implements [`Drawable`]: drawing paints exactly the pixels of
//! the shape's `coverage` with one color allowed by its `color_ok` policy and
//! leaves every other pixel unchanged. Point, line, triangle and rectangle
//! paint fixed white; circle and pentagon choose one random color per draw
//! call, each channel sampled uniformly in `[0, 255)`.

use vstd::prelude::*;

use crate::canvas::{
    dimensions, dims_of, image_wf, in_dims, lemma_paint_empty, lemma_paint_insert,
    lemma_paint_union, paint, pixels_of, put_pixel,
};
use crate::circle_path::{
    circle_cover, circle_offsets, lemma_octant_inv_init, lemma_octant_inv_step, next_d, next_y,
    octant_inv, octant_measure, octant_offsets, shifted_clipped, sym8,
};
use crate::entropy::random_in_range;
use crate::line_path::{
    abs_of, axis_offset, lemma_line_point_in_box, lemma_offset_bounds, line_point_at, line_seq,
    line_set, sign_of, steps_of,
};

verus! {

/// An RGB color value with one byte per channel.
#[derive(Clone, Copy, PartialEq, Eq, Structural, Debug)]
pub struct Color {
    pub r: u8,
    pub g: u8,
    pub b: u8,
}

impl Color {
    /// The channel triple of this color.
    pub open spec fn channels(self) -> (u8, u8, u8) {
        (self.r, self.g, self.b)
    }

    /// A color from its three channels.
    pub fn rgb(r: u8, g: u8, b: u8) -> (c: Color)
        ensures
            c.channels() == (r, g, b),
    {
        Color { r, g, b }
    }
}

/// The fixed white that point, line, triangle and rectangle paint with.
pub open spec fn white() -> (u8, u8, u8) {
    (255u8, 255u8, 255u8)
}

/// A 2-D integer coordinate; drawable as a single pixel.
#[derive(Clone, Copy, PartialEq, Eq, Structural, Debug)]
pub struct Point {
    pub x: i32,
    pub y: i32,
}

impl Point {
    /// The coordinates as mathematical integers.
    pub open spec fn coords(self) -> (int, int) {
        (self.x as int, self.y as int)
    }

    pub fn new(x: i32, y: i32) -> (p: Point)
        ensures
            p == (Point { x, y }),
    {
        Point { x, y }
    }

    /// A point sampled uniformly in `[0, width) x [0, height)`.
    pub fn random(width: i32, height: i32) -> (p: Point)
        requires
            1 <= width,
            1 <= height,
        ensures
            0 <= p.x < width,
            0 <= p.y < height,
    {
        Point { x: random_in_range(0, width), y: random_in_range(0, height) }
    }
}

/// The uniform drawing contract: a shape covers a set of pixels and paints
/// all of them, in one call, with one color its policy allows.
pub trait Drawable {
    /// The set of pixels that drawing covers on a `w` by `h` canvas.
    spec fn coverage(&self, w: int, h: int) -> Set<(int, int)>;

    /// When the shape may be drawn on a `w` by `h` canvas.
    spec fn fits(&self, w: int, h: int) -> bool;

    /// The colors the shape's policy allows for one draw call.
    spec fn color_ok(&self, c: (u8, u8, u8)) -> bool;

    /// Paint every covered pixel with one allowed color; leave the rest.
    fn draw(&self, image: &mut raster::Image)
        requires
            image_wf(*old(image)),
            self.fits(dims_of(*old(image)).0, dims_of(*old(image)).1),
        ensures
            image_wf(*final(image)),
            dims_of(*final(image)) == dims_of(*old(image)),
            exists|c: (u8, u8, u8)|
                #[trigger] self.color_ok(c) && pixels_of(*final(image)) == paint(
                    pixels_of(*old(image)),
                    self.coverage(dims_of(*old(image)).0, dims_of(*old(image)).1),
                    c,
                ),
    ;

    /// The color the shape would paint with, freshly chosen for this call.
    fn color(&self) -> (c: Color)
        ensures
            self.color_ok(c.channels()),
    ;
}

/// A display target that callers implement for whatever shows or stores
/// pixels; the library states nothing about it.
pub trait Displayable {
    fn display(&mut self, x: i32, y: i32, color: Color);
}

impl Drawable for Point {
    open spec fn coverage(&self, w: int, h: int) -> Set<(int, int)> {
        set![self.coords()]
    }

    open spec fn fits(&self, w: int, h: int) -> bool {
        in_dims(self.coords(), w, h)
    }

    open spec fn color_ok(&self, c: (u8, u8, u8)) -> bool {
        c == white()
    }

    fn draw(&self, image: &mut raster::Image) {
        let ghost m0 = pixels_of(*image);
        let ghost w = dims_of(*image).0;
        let ghost h = dims_of(*image).1;
        let c = self.color();
        put_pixel(image, self.x, self.y, c);
        proof {
            assert(pixels_of(*image) =~= paint(m0, self.coverage(w, h), white()));
            assert(self.color_ok(white()));
        }
    }

    fn color(&self) -> (c: Color) {
        Color::rgb(255, 255, 255)
    }
}

/// A straight segment between two points; both endpoints are painted.
#[derive(Clone, Copy)]
pub struct Line {
    pub start: Point,
    pub end: Point,
}

impl Line {
    pub fn new(start: &Point, end: &Point) -> (l: Line)
        ensures
            l.start == *start,
            l.end == *end,
    {
        Line { start: *start, end: *end }
    }

    /// A segment between two points sampled uniformly in bounds.
    pub fn random(width: i32, height: i32) -> (l: Line)
        requires
            1 <= width,
            1 <= height,
        ensures
            0 <= l.start.x < width,
            0 <= l.start.y < height,
            0 <= l.end.x < width,
            0 <= l.end.y < height,
    {
        Line { start: Point::random(width, height), end: Point::random(width, height) }
    }

    /// The ordered pixel path from `start` to `end`, endpoints included:
    /// the line rasterizer's output.
    pub fn points(&self) -> (v: Vec<Point>)
        ensures
            v@.len() == line_seq(self.start.coords(), self.end.coords()).len(),
            forall|j: int|
                0 <= j < v@.len() ==> (#[trigger] v@[j]).coords() == line_seq(
                    self.start.coords(),
                    self.end.coords(),
                )[j],
    {
        let a = self.start;
        let b = self.end;
        let ghost ga = a.coords();
        let ghost gb = b.coords();
        let dx: i64 = b.x as i64 - a.x as i64;
        let dy: i64 = b.y as i64 - a.y as i64;
        let adx: i64 = if dx < 0 {
            -dx
        } else {
            dx
        };
        let ady: i64 = if dy < 0 {
            -dy
        } else {
            dy
        };
        let steps: i64 = if adx >= ady {
            adx
        } else {
            ady
        };
        assert(adx as int == abs_of(gb.0 - ga.0));
        assert(ady as int == abs_of(gb.1 - ga.1));
        assert(steps as int == steps_of(ga, gb));
        let mut v: Vec<Point> = Vec::new();
        if steps == 0 {
            v.push(a);
            return v;
        }
        let mut k: i64 = 0;
        while k <= steps
            invariant
                0 < steps <= u32::MAX as i64,
                0 <= adx <= steps,
                0 <= ady <= steps,
                0 <= k <= steps + 1,
                ga == a.coords(),
                gb == b.coords(),
                adx as int == abs_of(gb.0 - ga.0),
                ady as int == abs_of(gb.1 - ga.1),
                steps as int == steps_of(ga, gb),
                dx as int == gb.0 - ga.0,
                dy as int == gb.1 - ga.1,
                v@.len() == k as int,
                forall|j: int|
                    0 <= j < k as int ==> (#[trigger] v@[j]).coords() == line_point_at(ga, gb, j),
            decreases steps + 1 - k,
        {
            proof {
                assert((adx as int) * (k as int) <= u64::MAX as int) by (nonlinear_arith)
                    requires
                        0 <= adx <= u32::MAX as i64,
                        0 <= k <= u32::MAX as i64,
                ;
                assert((ady as int) * (k as int) <= u64::MAX as int) by (nonlinear_arith)
                    requires
                        0 <= ady <= u32::MAX as i64,
                        0 <= k <= u32::MAX as i64,
                ;
                lemma_offset_bounds(adx as int, k as int, steps as int);
                lemma_offset_bounds(ady as int, k as int, steps as int);
            }
            let off_x: u64 = (adx as u64) * (k as u64) / (steps as u64);
            let off_y: u64 = (ady as u64) * (k as u64) / (steps as u64);
            proof {
                assert(off_x as int == axis_offset(adx as int, k as int, steps as int));
                assert(off_y as int == axis_offset(ady as int, k as int, steps as int));
                assert(0 <= off_x as int <= adx as int);
                assert(0 <= off_y as int <= ady as int);
            }
            let px: i64 = if dx < 0 {
                a.x as i64 - off_x as i64
            } else {
                a.x as i64 + off_x as i64
            };
            let py: i64 = if dy < 0 {
                a.y as i64 - off_y as i64
            } else {
                a.y as i64 + off_y as i64
            };
            proof {
                let qx = axis_offset(adx as int, k as int, steps as int);
                let qy = axis_offset(ady as int, k as int, steps as int);
                if dx < 0 {
                    assert(sign_of(gb.0 - ga.0) * qx == -qx) by (nonlinear_arith)
                        requires
                            sign_of(gb.0 - ga.0) == -1,
                    ;
                } else {
                    assert(sign_of(gb.0 - ga.0) * qx == qx) by (nonlinear_arith)
                        requires
                            sign_of(gb.0 - ga.0) == 1,
                    ;
                }
                if dy < 0 {
                    assert(sign_of(gb.1 - ga.1) * qy == -qy) by (nonlinear_arith)
                        requires
                            sign_of(gb.1 - ga.1) == -1,
                    ;
                } else {
                    assert(sign_of(gb.1 - ga.1) * qy == qy) by (nonlinear_arith)
                        requires
                            sign_of(gb.1 - ga.1) == 1,
                    ;
                }
                lemma_line_point_in_box(ga, gb, k as int);
                assert(px as int == line_point_at(ga, gb, k as int).0);
                assert(py as int == line_point_at(ga, gb, k as int).1);
                assert(i32::MIN as int <= px as int <= i32::MAX as int);
                assert(i32::MIN as int <= py as int <= i32::MAX as int);
            }
            v.push(Point { x: px as i32, y: py as i32 });
            k = k + 1;
        }
        v
    }
}

/// One random color, each channel sampled uniformly in `[0, 255)`; the
/// upper bound is exclusive, so 255 itself is never produced.
fn random_color() -> (c: Color)
    ensures
        c.r < 255,
        c.g < 255,
        c.b < 255,
{
    let r: i32 = random_in_range(0, 255);
    let g: i32 = random_in_range(0, 255);
    let b: i32 = random_in_range(0, 255);
    Color { r: r as u8, g: g as u8, b: b as u8 }
}

impl Line {
    /// Paint every pixel of the path from `start` to `end` with the color
    /// `c`; both endpoints must lie on the canvas, and then so does the
    /// whole path.
    pub fn draw_colored(&self, image: &mut raster::Image, c: Color)
        requires
            image_wf(*old(image)),
            in_dims(self.start.coords(), dims_of(*old(image)).0, dims_of(*old(image)).1),
            in_dims(self.end.coords(), dims_of(*old(image)).0, dims_of(*old(image)).1),
        ensures
            image_wf(*final(image)),
            dims_of(*final(image)) == dims_of(*old(image)),
            pixels_of(*final(image)) == paint(
                pixels_of(*old(image)),
                line_set(self.start.coords(), self.end.coords()),
                c.channels(),
            ),
    {
        let ghost ga = self.start.coords();
        let ghost gb = self.end.coords();
        let ghost m0 = pixels_of(*image);
        let ghost gd = dims_of(*image);
        let pts = self.points();
        let n = pts.len();
        proof {
            lemma_paint_empty(m0, c.channels());
            assert(line_seq(ga, gb).take(0).to_set() =~= Set::<(int, int)>::empty());
        }
        let mut i: usize = 0;
        while i < n
            invariant
                image_wf(*image),
                dims_of(*image) == gd,
                ga == self.start.coords(),
                gb == self.end.coords(),
                in_dims(ga, gd.0, gd.1),
                in_dims(gb, gd.0, gd.1),
                n == pts@.len(),
                pts@.len() == line_seq(ga, gb).len(),
                forall|j: int|
                    0 <= j < pts@.len() ==> (#[trigger] pts@[j]).coords() == line_seq(ga, gb)[j],
                0 <= i <= n,
                pixels_of(*image) == paint(
                    m0,
                    line_seq(ga, gb).take(i as int).to_set(),
                    c.channels(),
                ),
            decreases n - i,
        {
            let p = pts[i];
            proof {
                lemma_line_point_in_box(ga, gb, i as int);
                assert(p.coords() == line_point_at(ga, gb, i as int));
                assert(in_dims(p.coords(), gd.0, gd.1));
            }
            put_pixel(image, p.x, p.y, c);
            proof {
                lemma_paint_insert(
                    m0,
                    line_seq(ga, gb).take(i as int).to_set(),
                    c.channels(),
                    p.coords(),
                );
                assert(line_seq(ga, gb).take(i as int + 1) =~= line_seq(ga, gb).take(
                    i as int,
                ).push(line_seq(ga, gb)[i as int]));
                line_seq(ga, gb).take(i as int).lemma_push_to_set_commute(
                    line_seq(ga, gb)[i as int],
                );
                assert(pixels_of(*image) == paint(
                    m0,
                    line_seq(ga, gb).take(i as int + 1).to_set(),
                    c.channels(),
                ));
            }
            i = i + 1;
        }
        proof {
            assert(line_seq(ga, gb).take(n as int) =~= line_seq(ga, gb));
        }
    }
}

impl Drawable for Line {
    open spec fn coverage(&self, w: int, h: int) -> Set<(int, int)> {
        line_set(self.start.coords(), self.end.coords())
    }

    open spec fn fits(&self, w: int, h: int) -> bool {
        in_dims(self.start.coords(), w, h) && in_dims(self.end.coords(), w, h)
    }

    open spec fn color_ok(&self, c: (u8, u8, u8)) -> bool {
        c == white()
    }

    fn draw(&self, image: &mut raster::Image) {
        let c = self.color();
        self.draw_colored(image, c);
        proof {
            assert(self.color_ok(white()));
        }
    }

    fn color(&self) -> (c: Color) {
        Color::rgb(255, 255, 255)
    }
}

/// A closed 3-vertex outline; the edges are (p1, p2), (p2, p3), (p3, p1).
#[derive(Clone, Copy)]
pub struct Triangle {
    pub p1: Point,
    pub p2: Point,
    pub p3: Point,
}

impl Triangle {
    pub fn new(p1: &Point, p2: &Point, p3: &Point) -> (t: Triangle)
        ensures
            t.p1 == *p1,
            t.p2 == *p2,
            t.p3 == *p3,
    {
        Triangle { p1: *p1, p2: *p2, p3: *p3 }
    }
}

/// The pixels of the closed outline through three vertices.
pub open spec fn triangle_outline(q1: (int, int), q2: (int, int), q3: (int, int)) -> Set<
    (int, int),
> {
    line_set(q1, q2).union(line_set(q2, q3)).union(line_set(q3, q1))
}

impl Drawable for Triangle {
    open spec fn coverage(&self, w: int, h: int) -> Set<(int, int)> {
        triangle_outline(self.p1.coords(), self.p2.coords(), self.p3.coords())
    }

    open spec fn fits(&self, w: int, h: int) -> bool {
        in_dims(self.p1.coords(), w, h) && in_dims(self.p2.coords(), w, h) && in_dims(
            self.p3.coords(),
            w,
            h,
        )
    }

    open spec fn color_ok(&self, c: (u8, u8, u8)) -> bool {
        c == white()
    }

    fn draw(&self, image: &mut raster::Image) {
        let ghost m0 = pixels_of(*image);
        let ghost q1 = self.p1.coords();
        let ghost q2 = self.p2.coords();
        let ghost q3 = self.p3.coords();
        let c = self.color();
        let line1 = Line::new(&self.p1, &self.p2);
        let line2 = Line::new(&self.p2, &self.p3);
        let line3 = Line::new(&self.p3, &self.p1);
        line1.draw_colored(image, c);
        line2.draw_colored(image, c);
        line3.draw_colored(image, c);
        proof {
            lemma_paint_union(m0, line_set(q1, q2), line_set(q2, q3), white());
            lemma_paint_union(m0, line_set(q1, q2).union(line_set(q2, q3)), line_set(q3, q1), white());
            assert(self.color_ok(white()));
        }
    }

    fn color(&self) -> (c: Color) {
        Color::rgb(255, 255, 255)
    }
}

/// An axis-aligned rectangle held by its upper-left and lower-right corners;
/// the other two corners are derived.
pub struct Rectangle {
    pub top_left: Point,
    pub bottom_right: Point,
}

impl Rectangle {
    pub fn new(top_left: &Point, bottom_right: &Point) -> (rect: Rectangle)
        ensures
            rect.top_left == *top_left,
            rect.bottom_right == *bottom_right,
    {
        Rectangle { top_left: *top_left, bottom_right: *bottom_right }
    }
}

/// The derived upper-right corner: `(bottom_right.x, top_left.y)`.
pub open spec fn rect_top_right(tl: (int, int), br: (int, int)) -> (int, int) {
    (br.0, tl.1)
}

/// The derived lower-left corner: `(top_left.x, bottom_right.y)`.
pub open spec fn rect_bottom_left(tl: (int, int), br: (int, int)) -> (int, int) {
    (tl.0, br.1)
}

/// The pixels of the rectangle's outline: its four edges in cycle order.
pub open spec fn rectangle_outline(tl: (int, int), br: (int, int)) -> Set<(int, int)> {
    line_set(tl, rect_top_right(tl, br)).union(line_set(rect_top_right(tl, br), br)).union(
        line_set(br, rect_bottom_left(tl, br)),
    ).union(line_set(rect_bottom_left(tl, br), tl))
}

impl Drawable for Rectangle {
    open spec fn coverage(&self, w: int, h: int) -> Set<(int, int)> {
        rectangle_outline(self.top_left.coords(), self.bottom_right.coords())
    }

    open spec fn fits(&self, w: int, h: int) -> bool {
        in_dims(self.top_left.coords(), w, h) && in_dims(self.bottom_right.coords(), w, h)
    }

    open spec fn color_ok(&self, c: (u8, u8, u8)) -> bool {
        c == white()
    }

    fn draw(&self, image: &mut raster::Image) {
        let ghost m0 = pixels_of(*image);
        let ghost tl = self.top_left.coords();
        let ghost br = self.bottom_right.coords();
        let c = self.color();
        let top_right = Point { x: self.bottom_right.x, y: self.top_left.y };
        let bottom_left = Point { x: self.top_left.x, y: self.bottom_right.y };
        let line1 = Line::new(&self.top_left, &top_right);
        let line2 = Line::new(&top_right, &self.bottom_right);
        let line3 = Line::new(&self.bottom_right, &bottom_left);
        let line4 = Line::new(&bottom_left, &self.top_left);
        line1.draw_colored(image, c);
        line2.draw_colored(image, c);
        line3.draw_colored(image, c);
        line4.draw_colored(image, c);
        proof {
            let e1 = line_set(tl, rect_top_right(tl, br));
            let e2 = line_set(rect_top_right(tl, br), br);
            let e3 = line_set(br, rect_bottom_left(tl, br));
            let e4 = line_set(rect_bottom_left(tl, br), tl);
            lemma_paint_union(m0, e1, e2, white());
            lemma_paint_union(m0, e1.union(e2), e3, white());
            lemma_paint_union(m0, e1.union(e2).union(e3), e4, white());
            assert(self.color_ok(white()));
        }
    }

    fn color(&self) -> (c: Color) {
        Color::rgb(255, 255, 255)
    }
}

/// A closed 5-vertex outline in caller-supplied vertex order.
#[derive(Clone, Copy)]
pub struct Pentagon {
    pub p1: Point,
    pub p2: Point,
    pub p3: Point,
    pub p4: Point,
    pub p5: Point,
}

impl Pentagon {
    pub fn new(p1: &Point, p2: &Point, p3: &Point, p4: &Point, p5: &Point) -> (pent: Pentagon)
        ensures
            pent.p1 == *p1,
            pent.p2 == *p2,
            pent.p3 == *p3,
            pent.p4 == *p4,
            pent.p5 == *p5,
    {
        Pentagon { p1: *p1, p2: *p2, p3: *p3, p4: *p4, p5: *p5 }
    }
}

/// The pixels of the closed outline through five vertices.
pub open spec fn pentagon_outline(
    q1: (int, int),
    q2: (int, int),
    q3: (int, int),
    q4: (int, int),
    q5: (int, int),
) -> Set<(int, int)> {
    line_set(q1, q2).union(line_set(q2, q3)).union(line_set(q3, q4)).union(
        line_set(q4, q5),
    ).union(line_set(q5, q1))
}

impl Drawable for Pentagon {
    open spec fn coverage(&self, w: int, h: int) -> Set<(int, int)> {
        pentagon_outline(
            self.p1.coords(),
            self.p2.coords(),
            self.p3.coords(),
            self.p4.coords(),
            self.p5.coords(),
        )
    }

    open spec fn fits(&self, w: int, h: int) -> bool {
        in_dims(self.p1.coords(), w, h) && in_dims(self.p2.coords(), w, h) && in_dims(
            self.p3.coords(),
            w,
            h,
        ) && in_dims(self.p4.coords(), w, h) && in_dims(self.p5.coords(), w, h)
    }

    open spec fn color_ok(&self, c: (u8, u8, u8)) -> bool {
        c.0 < 255 && c.1 < 255 && c.2 < 255
    }

    fn draw(&self, image: &mut raster::Image) {
        let ghost m0 = pixels_of(*image);
        let ghost q1 = self.p1.coords();
        let ghost q2 = self.p2.coords();
        let ghost q3 = self.p3.coords();
        let ghost q4 = self.p4.coords();
        let ghost q5 = self.p5.coords();
        let c = self.color();
        let line1 = Line::new(&self.p1, &self.p2);
        let line2 = Line::new(&self.p2, &self.p3);
        let line3 = Line::new(&self.p3, &self.p4);
        let line4 = Line::new(&self.p4, &self.p5);
        let line5 = Line::new(&self.p5, &self.p1);
        line1.draw_colored(image, c);
        line2.draw_colored(image, c);
        line3.draw_colored(image, c);
        line4.draw_colored(image, c);
        line5.draw_colored(image, c);
        proof {
            let e1 = line_set(q1, q2);
            let e2 = line_set(q2, q3);
            let e3 = line_set(q3, q4);
            let e4 = line_set(q4, q5);
            let e5 = line_set(q5, q1);
            let ch = c.channels();
            lemma_paint_union(m0, e1, e2, ch);
            lemma_paint_union(m0, e1.union(e2), e3, ch);
            lemma_paint_union(m0, e1.union(e2).union(e3), e4, ch);
            lemma_paint_union(m0, e1.union(e2).union(e3).union(e4), e5, ch);
            assert(self.color_ok(ch));
        }
    }

    fn color(&self) -> (c: Color) {
        random_color()
    }
}

/// Paint the pixel at `(cx + ox, cy + oy)` if it lies on the canvas; skip it
/// silently otherwise.
fn put_offset(image: &mut raster::Image, cx: i64, cy: i64, ox: i64, oy: i64, c: Color)
    requires
        image_wf(*old(image)),
        i32::MIN as i64 <= cx <= i32::MAX as i64,
        i32::MIN as i64 <= cy <= i32::MAX as i64,
        -(u32::MAX as i64) <= ox <= u32::MAX as i64,
        -(u32::MAX as i64) <= oy <= u32::MAX as i64,
    ensures
        image_wf(*final(image)),
        dims_of(*final(image)) == dims_of(*old(image)),
        pixels_of(*final(image)) == paint(
            pixels_of(*old(image)),
            shifted_clipped(
                set![(ox as int, oy as int)],
                cx as int,
                cy as int,
                dims_of(*old(image)).0,
                dims_of(*old(image)).1,
            ),
            c.channels(),
        ),
{
    let ghost m0 = pixels_of(*image);
    let ghost gd = dims_of(*image);
    let ghost cover = shifted_clipped(
        set![(ox as int, oy as int)],
        cx as int,
        cy as int,
        gd.0,
        gd.1,
    );
    let px: i64 = cx + ox;
    let py: i64 = cy + oy;
    let wh = dimensions(image);
    if 0 <= px && px < wh.0 as i64 && 0 <= py && py < wh.1 as i64 {
        put_pixel(image, px as i32, py as i32, c);
        proof {
            assert(pixels_of(*image) =~= paint(m0, cover, c.channels()));
        }
    } else {
        proof {
            assert(cover =~= Set::<(int, int)>::empty());
            lemma_paint_empty(m0, c.channels());
        }
    }
}

/// A circle held by its center and integer radius; its outline is drawn
/// with eight-way symmetric midpoint stepping, clipped to the canvas.
pub struct Circle {
    pub center: Point,
    pub radius: i32,
}

impl Circle {
    /// A circle with a center sampled uniformly in bounds and a radius
    /// sampled uniformly in `[0, min(width, height) / 2)`.
    pub fn random(width: i32, height: i32) -> (c: Circle)
        requires
            2 <= width,
            2 <= height,
        ensures
            0 <= c.center.x < width,
            0 <= c.center.y < height,
            0 <= c.radius,
            c.radius < (if width <= height { width } else { height }) / 2,
    {
        let m: i32 = if width <= height {
            width
        } else {
            height
        };
        Circle { center: Point::random(width, height), radius: random_in_range(0, m / 2) }
    }
}

impl Drawable for Circle {
    open spec fn coverage(&self, w: int, h: int) -> Set<(int, int)> {
        circle_cover(self.center.x as int, self.center.y as int, self.radius as int, w, h)
    }

    open spec fn fits(&self, w: int, h: int) -> bool {
        true
    }

    open spec fn color_ok(&self, c: (u8, u8, u8)) -> bool {
        c.0 < 255 && c.1 < 255 && c.2 < 255
    }

    fn draw(&self, image: &mut raster::Image) {
        let ghost m0 = pixels_of(*image);
        let ghost gd = dims_of(*image);
        let c = self.color();
        let ghost ch = c.channels();
        let cx: i64 = self.center.x as i64;
        let cy: i64 = self.center.y as i64;
        let r: i64 = self.radius as i64;
        let ghost gr = r as int;
        let ghost target = paint(
            m0,
            shifted_clipped(circle_offsets(gr), cx as int, cy as int, gd.0, gd.1),
            ch,
        );
        if r < 0 {
            proof {
                assert(circle_offsets(gr) =~= Set::<(int, int)>::empty());
                assert(shifted_clipped(circle_offsets(gr), cx as int, cy as int, gd.0, gd.1)
                    =~= Set::<(int, int)>::empty());
                lemma_paint_empty(m0, ch);
                assert(self.color_ok(ch));
            }
            return ;
        }
        let mut x: i64 = 0;
        let mut y: i64 = r;
        let mut d: i128 = 3 - 2 * (r as i128);
        proof {
            lemma_octant_inv_init(gr);
        }
        while y >= x
            invariant
                image_wf(*image),
                dims_of(*image) == gd,
                0 <= r <= 0x8000_0000i64,
                gr == r as int,
                ch == c.channels(),
                i32::MIN as i64 <= cx <= i32::MAX as i64,
                i32::MIN as i64 <= cy <= i32::MAX as i64,
                0 <= x <= r + 1,
                -1 <= y <= r,
                octant_inv(gr, x as int, y as int, d as int),
                target == paint(
                    m0,
                    shifted_clipped(circle_offsets(gr), cx as int, cy as int, gd.0, gd.1),
                    ch,
                ),
                paint(
                    pixels_of(*image),
                    shifted_clipped(
                        octant_offsets(x as int, y as int, d as int),
                        cx as int,
                        cy as int,
                        gd.0,
                        gd.1,
                    ),
                    ch,
                ) == target,
            decreases octant_measure(x as int, y as int),
        {
            let ghost gx = x as int;
            let ghost gy = y as int;
            let ghost gdc = d as int;
            let ghost m_top = pixels_of(*image);
            let ghost c1 = shifted_clipped(set![(gx, gy)], cx as int, cy as int, gd.0, gd.1);
            let ghost c2 = shifted_clipped(set![(-gx, gy)], cx as int, cy as int, gd.0, gd.1);
            let ghost c3 = shifted_clipped(set![(gx, -gy)], cx as int, cy as int, gd.0, gd.1);
            let ghost c4 = shifted_clipped(set![(-gx, -gy)], cx as int, cy as int, gd.0, gd.1);
            let ghost c5 = shifted_clipped(set![(gy, gx)], cx as int, cy as int, gd.0, gd.1);
            let ghost c6 = shifted_clipped(set![(-gy, gx)], cx as int, cy as int, gd.0, gd.1);
            let ghost c7 = shifted_clipped(set![(gy, -gx)], cx as int, cy as int, gd.0, gd.1);
            let ghost c8 = shifted_clipped(set![(-gy, -gx)], cx as int, cy as int, gd.0, gd.1);
            put_offset(image, cx, cy, x, y, c);
            put_offset(image, cx, cy, -x, y, c);
            put_offset(image, cx, cy, x, -y, c);
            put_offset(image, cx, cy, -x, -y, c);
            put_offset(image, cx, cy, y, x, c);
            put_offset(image, cx, cy, -y, x, c);
            put_offset(image, cx, cy, y, -x, c);
            put_offset(image, cx, cy, -y, -x, c);
            proof {
                lemma_paint_union(m_top, c1, c2, ch);
                lemma_paint_union(m_top, c1.union(c2), c3, ch);
                lemma_paint_union(m_top, c1.union(c2).union(c3), c4, ch);
                lemma_paint_union(m_top, c1.union(c2).union(c3).union(c4), c5, ch);
                lemma_paint_union(m_top, c1.union(c2).union(c3).union(c4).union(c5), c6, ch);
                lemma_paint_union(
                    m_top,
                    c1.union(c2).union(c3).union(c4).union(c5).union(c6),
                    c7,
                    ch,
                );
                lemma_paint_union(
                    m_top,
                    c1.union(c2).union(c3).union(c4).union(c5).union(c6).union(c7),
                    c8,
                    ch,
                );
                assert(c1.union(c2).union(c3).union(c4).union(c5).union(c6).union(c7).union(c8)
                    =~= shifted_clipped(sym8(gx, gy), cx as int, cy as int, gd.0, gd.1));
                assert(pixels_of(*image) == paint(
                    m_top,
                    shifted_clipped(sym8(gx, gy), cx as int, cy as int, gd.0, gd.1),
                    ch,
                ));
            }
            proof {
                assert(d as int <= 0x100_0000_0000_0000_0000i128 as int && d as int
                    >= -0x100_0000_0000_0000_0000i128 as int) by (nonlinear_arith)
                    requires
                        d as int == 2 * (x as int) * (x as int) + 2 * (y as int) * (y as int) + 8
                            * (x as int) - 6 * (y as int) - 2 * (r as int) * (r as int) + 4 * (
                        r as int) + 3,
                        0 <= x as int <= r as int + 1,
                        -1 <= y as int <= r as int,
                        0 <= r as int <= 0x8000_0000i64 as int,
                ;
            }
            x = x + 1;
            if d > 0 {
                y = y - 1;
                d = d + 4 * ((x - y) as i128) + 10;
            } else {
                d = d + 4 * (x as i128) + 6;
            }
            proof {
                lemma_octant_inv_step(gr, gx, gy, gdc);
                assert(x as int == gx + 1);
                assert(y as int == next_y(gy, gdc));
                assert(d as int == next_d(gx, gy, gdc));
                assert(octant_offsets(gx, gy, gdc) == sym8(gx, gy).union(
                    octant_offsets(gx + 1, next_y(gy, gdc), next_d(gx, gy, gdc)),
                ));
                assert(shifted_clipped(octant_offsets(gx, gy, gdc), cx as int, cy as int, gd.0,
                    gd.1) =~= shifted_clipped(sym8(gx, gy), cx as int, cy as int, gd.0,
                    gd.1).union(
                    shifted_clipped(
                        octant_offsets(x as int, y as int, d as int),
                        cx as int,
                        cy as int,
                        gd.0,
                        gd.1,
                    ),
                ));
                lemma_paint_union(
                    m_top,
                    shifted_clipped(sym8(gx, gy), cx as int, cy as int, gd.0, gd.1),
                    shifted_clipped(
                        octant_offsets(x as int, y as int, d as int),
                        cx as int,
                        cy as int,
                        gd.0,
                        gd.1,
                    ),
                    ch,
                );
            }
        }
        proof {
            assert(octant_offsets(x as int, y as int, d as int) =~= Set::<(int, int)>::empty());
            assert(shifted_clipped(
                octant_offsets(x as int, y as int, d as int),
                cx as int,
                cy as int,
                gd.0,
                gd.1,
            ) =~= Set::<(int, int)>::empty());
            lemma_paint_empty(pixels_of(*image), ch);
            assert(self.color_ok(ch));
            assert(pixels_of(*image) == paint(m0, self.coverage(gd.0, gd.1), ch));
        }
    }

    fn color(&self) -> (c: Color) {
        random_color()
    }
}

} // verus!
