//! The boundary to the `raster` crate's image buffer.
//!
//! An image is modelled by three quantities: `dims_of` (its width and height),
//! `pixels_of` (a map from in-bounds coordinates to the RGB channels stored
//! there), and `image_wf` (the byte buffer has exactly `4 * width * height`
//! entries, all dimensions non-negative, and `4 * width * height` fits in
//! `i32`, as `raster::Image::blank` lays it out). The functions that touch a
//! `raster::Image` are the only trusted code in this module.

use vstd::prelude::*;

use crate::geometrical_shapes::Color;

verus! {

#[verifier::external_type_specification]
#[verifier::external_body]
pub struct ExImage(raster::Image);

/// The RGB channels stored at each in-bounds coordinate of the image.
pub uninterp spec fn pixels_of(img: raster::Image) -> Map<(int, int), (u8, u8, u8)>;

/// The width and height of the image.
pub uninterp spec fn dims_of(img: raster::Image) -> (int, int);

/// The image's byte buffer has exactly `4 * width * height` entries, the
/// dimensions are non-negative, and `4 * width * height` fits in `i32`: an
/// in-bounds pixel write then computes its byte index without overflow and
/// touches only that pixel's four bytes.
pub uninterp spec fn image_wf(img: raster::Image) -> bool;

/// Coordinate `p` lies inside a `w` by `h` canvas.
pub open spec fn in_dims(p: (int, int), w: int, h: int) -> bool {
    0 <= p.0 < w && 0 <= p.1 < h
}

/// The pixel map `m` with every coordinate of `s` overwritten by the color `c`.
pub open spec fn paint(
    m: Map<(int, int), (u8, u8, u8)>,
    s: Set<(int, int)>,
    c: (u8, u8, u8),
) -> Map<(int, int), (u8, u8, u8)> {
    m.union_prefer_right(Map::new(|p: (int, int)| s.contains(p), |p: (int, int)| c))
}

/// Painting nothing changes nothing.
pub proof fn lemma_paint_empty(m: Map<(int, int), (u8, u8, u8)>, c: (u8, u8, u8))
    ensures
        paint(m, Set::empty(), c) == m,
{
    assert(paint(m, Set::empty(), c) =~= m);
}

/// Painting a set and then one more pixel with the same color paints the
/// enlarged set.
pub proof fn lemma_paint_insert(
    m: Map<(int, int), (u8, u8, u8)>,
    s: Set<(int, int)>,
    c: (u8, u8, u8),
    p: (int, int),
)
    ensures
        paint(m, s, c).insert(p, c) == paint(m, s.insert(p), c),
{
    assert(paint(m, s, c).insert(p, c) =~= paint(m, s.insert(p), c));
}

/// Painting two sets in turn with the same color paints their union.
pub proof fn lemma_paint_union(
    m: Map<(int, int), (u8, u8, u8)>,
    s1: Set<(int, int)>,
    s2: Set<(int, int)>,
    c: (u8, u8, u8),
)
    ensures
        paint(paint(m, s1, c), s2, c) == paint(m, s1.union(s2), c),
{
    assert(paint(paint(m, s1, c), s2, c) =~= paint(m, s1.union(s2), c));
}

/// The pixel map of a fresh `w` by `h` canvas: every in-bounds pixel black.
pub open spec fn blank_pixels(w: int, h: int) -> Map<(int, int), (u8, u8, u8)> {
    Map::new(|p: (int, int)| in_dims(p, w, h), |p: (int, int)| (0u8, 0u8, 0u8))
}

/// Relies on `raster::Image::blank`: it returns a `w` by `h` image whose
/// bytes are `[0, 0, 0, 255]` for every pixel, that is, every pixel black.
#[verifier::external_body]
pub fn blank_image(w: i32, h: i32) -> (img: raster::Image)
    requires
        0 <= w,
        0 <= h,
        4 * (w as int) * (h as int) <= i32::MAX as int,
    ensures
        image_wf(img),
        dims_of(img) == (w as int, h as int),
        pixels_of(img) == blank_pixels(w as int, h as int),
{
    raster::Image::blank(w, h)
}

/// Relies on `raster::Image::set_pixel` and `raster::Color::rgb`: for an
/// in-bounds coordinate of a well-formed image, `set_pixel` writes the four
/// channel bytes of that pixel (alpha becomes 255 through `Color::rgb`) and
/// touches nothing else; it returns `Ok`, and it cannot reach an
/// out-of-range index because the buffer length matches the dimensions.
#[verifier::external_body]
pub fn put_pixel(img: &mut raster::Image, x: i32, y: i32, c: Color)
    requires
        image_wf(*old(img)),
        in_dims((x as int, y as int), dims_of(*old(img)).0, dims_of(*old(img)).1),
    ensures
        image_wf(*final(img)),
        dims_of(*final(img)) == dims_of(*old(img)),
        pixels_of(*final(img)) == pixels_of(*old(img)).insert(
            (x as int, y as int),
            (c.r, c.g, c.b),
        ),
{
    let _ = img.set_pixel(x, y, raster::Color::rgb(c.r, c.g, c.b));
}

/// Relies on the public `width` and `height` fields of `raster::Image`.
#[verifier::external_body]
pub fn dimensions(img: &raster::Image) -> (wh: (i32, i32))
    ensures
        dims_of(*img) == (wh.0 as int, wh.1 as int),
{
    (img.width, img.height)
}

} // verus!
