//! The occupancy map: a colour image whose dark pixels are obstacles.

use crate::structs::{Point, UNITS_PER_PIXEL};
use vstd::arithmetic::div_mod::{
    lemma_div_is_ordered, lemma_div_multiples_vanish, lemma_fundamental_div_mod,
    lemma_fundamental_div_mod_converse,
};
use vstd::prelude::*;

verus! {

/// A colour image of the map, held as the `image` crate's buffer of 8-bit RGB
/// pixels. Verus does not look inside it.
#[verifier::external_body]
pub struct MapImage {
    buffer: image::ImageBuffer<image::Rgb<u8>, Vec<u8>>,
}

/// The red, green and blue channel of every pixel of an image, by column and row.
pub uninterp spec fn image_pixels(image: MapImage) -> Map<(int, int), (u8, u8, u8)>;

/// The number of columns of an image.
pub uninterp spec fn image_width(image: MapImage) -> nat;

/// The number of rows of an image.
pub uninterp spec fn image_height(image: MapImage) -> nat;

/// Whether `len` bytes hold an image of `width` by `height` pixels of three
/// bytes: the number of bytes needed, which is counted in `usize` row by
/// row, can be counted and is there.
pub open spec fn image_fits(width: u32, height: u32, len: nat) -> bool {
    3 * width <= usize::MAX && 3 * width * height <= len
}

/// `image::ImageBuffer::from_raw`: an image of the given size over `data`,
/// which holds the pixels row by row, three bytes each. The outside function
/// gives an image exactly when `data` has at least `3 * width * height`
/// bytes and that number is found without overflow; the pixel in column `x`
/// of row `y` then starts at byte `3 * (y * width + x)`.
#[verifier::external_body]
fn image_from_raw(width: u32, height: u32, data: Vec<u8>) -> (r: Option<MapImage>)
    ensures
        r.is_some() <==> image_fits(width, height, data@.len()),
        r matches Some(image) ==> {
            &&& image_width(image) == width
            &&& image_height(image) == height
            &&& forall|x: int, y: int|
                0 <= x < width && 0 <= y < height ==> #[trigger] image_pixels(image)[(x, y)] == (
                    data@[3 * (y * width + x)],
                    data@[3 * (y * width + x) + 1],
                    data@[3 * (y * width + x) + 2],
                )
        },
{
    match image::ImageBuffer::from_raw(width, height, data) {
        Some(buffer) => Some(MapImage { buffer }),
        None => None,
    }
}

/// `image::ImageBuffer::dimensions`: the width and the height of the image.
#[verifier::external_body]
fn image_dimensions(image: &MapImage) -> (r: (u32, u32))
    ensures
        r.0 == image_width(*image),
        r.1 == image_height(*image),
{
    image.buffer.dimensions()
}

/// `image::ImageBuffer::get_pixel`: the red, green and blue channel of the
/// pixel in column `x` of row `y`. The outside function panics outside the
/// image, so both must lie inside.
#[verifier::external_body]
fn image_pixel(image: &MapImage, x: u32, y: u32) -> (r: (u8, u8, u8))
    requires
        x < image_width(*image),
        y < image_height(*image),
    ensures
        r == image_pixels(*image)[(x as int, y as int)],
{
    let pixel = image.buffer.get_pixel(x, y);
    (pixel.0[0], pixel.0[1], pixel.0[2])
}

/// Every channel below this value makes a pixel an obstacle.
pub const BLACK_THRESHOLD: u8 = 50;

/// A pixel counts as black when all three channels are below the threshold.
pub open spec fn spec_is_black(pixel: (u8, u8, u8)) -> bool {
    pixel.0 < BLACK_THRESHOLD && pixel.1 < BLACK_THRESHOLD && pixel.2 < BLACK_THRESHOLD
}

/// Whether a pixel is dark enough to be an obstacle.
pub fn is_black(pixel: (u8, u8, u8)) -> (r: bool)
    ensures
        r == spec_is_black(pixel),
{
    pixel.0 < BLACK_THRESHOLD && pixel.1 < BLACK_THRESHOLD && pixel.2 < BLACK_THRESHOLD
}

/// The largest pixel index whose coordinate still fits the fixed-point range.
pub const MAX_PIXEL: u32 = 21_474_836;

impl MapImage {
    /// Whether column `x` of row `y` is a pixel of the image that is not black.
    pub open spec fn is_free(self, x: int, y: int) -> bool {
        &&& 0 <= x < image_width(self)
        &&& 0 <= y < image_height(self)
        &&& !spec_is_black(image_pixels(self)[(x, y)])
    }

    /// Whether the image has a pixel that is not black.
    pub open spec fn has_free(self) -> bool {
        exists|x: int, y: int| self.is_free(x, y)
    }

    /// `b`, as `(x_min, y_min, x_max, y_max)`, is the smallest rectangle that
    /// holds every pixel that is not black.
    pub open spec fn is_bounding_box(self, b: (u32, u32, u32, u32)) -> bool {
        &&& forall|x: int, y: int| #[trigger] self.is_free(x, y) ==> b.0 <= x <= b.2 && b.1 <= y <= b.3
        &&& exists|y: int| self.is_free(b.0 as int, y)
        &&& exists|y: int| self.is_free(b.2 as int, y)
        &&& exists|x: int| self.is_free(x, b.1 as int)
        &&& exists|x: int| self.is_free(x, b.3 as int)
    }

    /// `b` is the navigable rectangle of the image: the bounding box of its
    /// pixels that are not black, or the whole image where all are black.
    pub open spec fn is_bounds(self, b: (u32, u32, u32, u32)) -> bool {
        if self.has_free() {
            self.is_bounding_box(b)
        } else {
            b == (0u32, 0u32, (image_width(self) - 1) as u32, (image_height(self) - 1) as u32)
        }
    }

    /// An image of `width` by `height` pixels over `data`, which holds the
    /// pixels row by row as red, green and blue bytes; `None` when `data` is
    /// too short for that size.
    pub fn from_raw(width: u32, height: u32, data: Vec<u8>) -> (r: Option<MapImage>)
        ensures
            r.is_some() <==> image_fits(width, height, data@.len()),
            r matches Some(image) ==> {
                &&& image_width(image) == width
                &&& image_height(image) == height
                &&& forall|x: int, y: int|
                    0 <= x < width && 0 <= y < height ==> #[trigger] image_pixels(image)[(x, y)] == (
                        data@[3 * (y * width + x)],
                        data@[3 * (y * width + x) + 1],
                        data@[3 * (y * width + x) + 2],
                    )
            },
    {
        image_from_raw(width, height, data)
    }

    /// Number of columns.
    pub fn width(&self) -> (w: u32)
        ensures
            w == image_width(*self),
    {
        image_dimensions(self).0
    }

    /// Number of rows.
    pub fn height(&self) -> (h: u32)
        ensures
            h == image_height(*self),
    {
        image_dimensions(self).1
    }

    /// Whether no pixel of row `y` is free.
    fn row_is_clear(&self, y: u32) -> (r: bool)
        requires
            y < image_height(*self),
        ensures
            r == forall|x: int| !self.is_free(x, y as int),
    {
        let width: u32 = self.width();
        let mut x: u32 = 0;
        while x < width
            invariant
                x <= width == image_width(*self),
                y < image_height(*self),
                forall|k: int| 0 <= k < x ==> !self.is_free(k, y as int),
            decreases width - x,
        {
            if !is_black(image_pixel(self, x, y)) {
                assert(self.is_free(x as int, y as int));
                return false;
            }
            x += 1;
        }
        true
    }

    /// Whether no pixel of column `x` in the rows `y_lo..=y_hi` is free.
    fn column_is_clear(&self, x: u32, y_lo: u32, y_hi: u32) -> (r: bool)
        requires
            x < image_width(*self),
            y_hi < image_height(*self),
        ensures
            r == forall|y: int| y_lo <= y <= y_hi ==> !self.is_free(x as int, y),
    {
        let height: u32 = self.height();
        let mut y: u32 = y_lo;
        while y <= y_hi
            invariant
                x < image_width(*self),
                y_hi < height == image_height(*self),
                y_lo <= y,
                forall|k: int| y_lo <= k < y ==> !self.is_free(x as int, k),
            decreases y_hi + 1 - y,
        {
            if !is_black(image_pixel(self, x, y)) {
                assert(self.is_free(x as int, y as int));
                return false;
            }
            y += 1;
        }
        true
    }
}

/// The navigable rectangle of an image, as `(x_min, y_min, x_max, y_max)`:
/// the bounding box of the pixels that are not black. Where every pixel is
/// black it is the whole image.
pub fn find_bounds(image: &MapImage) -> (b: (u32, u32, u32, u32))
    requires
        image_width(*image) >= 1,
        image_height(*image) >= 1,
    ensures
        image.is_bounds(b),
        b.0 <= b.2 < image_width(*image),
        b.1 <= b.3 < image_height(*image),
{
    let width: u32 = image.width();
    let height: u32 = image.height();

    let mut top: u32 = 0;
    while top < height && image.row_is_clear(top)
        invariant
            top <= height == image_height(*image),
            forall|x: int, y: int| 0 <= y < top ==> !image.is_free(x, y),
        decreases height - top,
    {
        top += 1;
    }
    if top == height {
        assert(!image.has_free());
        return (0, 0, width - 1, height - 1);
    }
    let y_min: u32 = top;
    let ghost x_top: int = choose|x: int| image.is_free(x, y_min as int);
    assert(image.has_free());

    let mut below: u32 = height;
    while below > 0 && image.row_is_clear(below - 1)
        invariant
            y_min < below <= height == image_height(*image),
            image.is_free(x_top, y_min as int),
            forall|x: int, y: int| below <= y ==> !image.is_free(x, y),
        decreases below,
    {
        below -= 1;
    }
    let y_max: u32 = below - 1;
    let ghost x_bottom: int = choose|x: int| image.is_free(x, y_max as int);

    let mut left: u32 = 0;
    while left < width && image.column_is_clear(left, y_min, y_max)
        invariant
            left <= width == image_width(*image),
            y_min <= y_max < image_height(*image),
            forall|x: int, y: int| !(y_min <= y <= y_max) ==> !image.is_free(x, y),
            forall|x: int, y: int| 0 <= x < left ==> !image.is_free(x, y),
        decreases width - left,
    {
        left += 1;
    }
    assert(left < width) by {
        assert(image.is_free(x_top, y_min as int));
    }
    let x_min: u32 = left;
    let ghost y_left: int = choose|y: int| y_min <= y <= y_max && image.is_free(x_min as int, y);

    let mut right: u32 = width;
    while right > 0 && image.column_is_clear(right - 1, y_min, y_max)
        invariant
            x_min < right <= width == image_width(*image),
            y_min <= y_max < image_height(*image),
            image.is_free(x_min as int, y_left),
            forall|x: int, y: int| !(y_min <= y <= y_max) ==> !image.is_free(x, y),
            forall|x: int, y: int| right <= x ==> !image.is_free(x, y),
        decreases right,
    {
        right -= 1;
    }
    let x_max: u32 = right - 1;
    let ghost y_right: int = choose|y: int| y_min <= y <= y_max && image.is_free(x_max as int, y);
    let b: (u32, u32, u32, u32) = (x_min, y_min, x_max, y_max);
    assert(image.is_bounding_box(b)) by {
        assert(image.is_free(b.0 as int, y_left));
        assert(image.is_free(b.2 as int, y_right));
        assert(image.is_free(x_top, b.1 as int));
        assert(image.is_free(x_bottom, b.3 as int));
    }
    b
}

/// The pixel that a coordinate falls on: the nearest one, and the first one
/// for a coordinate left of or above the image.
pub open spec fn pixel_of(c: i32) -> int {
    if c < 0 {
        0
    } else {
        (c + UNITS_PER_PIXEL / 2) / (UNITS_PER_PIXEL as int)
    }
}

/// Coordinate of sample `i` of `steps` on the way from `a` to `b`, rounded down.
pub open spec fn interpolate(a: i32, b: i32, steps: int, i: int) -> int {
    a + (i * (b - a)) / steps
}

/// Sample `i` of the `steps + 1` evenly spaced points from `start` to `end`.
/// Without a positive number of steps the only sample is `start`.
pub open spec fn sample_point(start: Point, end: Point, steps: int, i: int) -> Point {
    if steps <= 0 {
        start
    } else {
        Point {
            x: interpolate(start.x, end.x, steps, i) as i32,
            y: interpolate(start.y, end.y, steps, i) as i32,
        }
    }
}

/// The quotient `n / d` rounded down, for a positive divisor.
fn floor_div(n: i64, d: i64) -> (q: i64)
    requires
        d > 0,
        n > i64::MIN,
    ensures
        q == n / d,
{
    if n >= 0 {
        n / d
    } else {
        let m: u64 = (-n) as u64;
        let e: u64 = d as u64;
        let up: u64 = (m - 1) / e + 1;
        proof {
            let rem: int = (m - 1) % (e as int);
            lemma_fundamental_div_mod(m - 1, e as int);
            assert(e * ((m - 1) / (e as int)) + e == e * up) by (nonlinear_arith)
                requires
                    up == (m - 1) / (e as int) + 1,
            ;
            assert(n == d * (-(up as int)) + (e - 1 - rem)) by (nonlinear_arith)
                requires
                    m - 1 == e * up - e + rem,
                    n == -(m as int),
                    d == e,
            ;
            lemma_fundamental_div_mod_converse(n as int, d as int, -(up as int), e - 1 - rem);
        }
        -(up as i64)
    }
}

/// Coordinate of sample `i` of `steps` on the way from `a` to `b`.
fn lerp(a: i32, b: i32, steps: i32, i: i32) -> (c: i32)
    requires
        0 <= i <= steps,
        steps >= 1,
    ensures
        c == interpolate(a, b, steps as int, i as int),
{
    let d: i64 = b as i64 - a as i64;
    assert(-0x8000_0000_0000_0000 < i * d < 0x8000_0000_0000_0000) by (nonlinear_arith)
        requires
            0 <= i <= 0x7fff_ffff,
            -0x1_0000_0000 < d < 0x1_0000_0000,
    ;
    let q: i64 = floor_div(i as i64 * d, steps as i64);
    proof {
        if d >= 0 {
            assert(0 <= i * d <= steps * d) by (nonlinear_arith)
                requires
                    0 <= i <= steps,
                    d >= 0,
            ;
            lemma_div_is_ordered(0, i * d, steps as int);
            lemma_div_is_ordered(i * d, steps * d, steps as int);
        } else {
            assert(steps * d <= i * d <= 0) by (nonlinear_arith)
                requires
                    0 <= i <= steps,
                    d < 0,
            ;
            lemma_div_is_ordered(i * d, 0, steps as int);
            lemma_div_is_ordered(steps * d, i * d, steps as int);
        }
        lemma_div_multiples_vanish(d as int, steps as int);
        assert(steps * d == d * steps) by (nonlinear_arith);
    }
    (a as i64 + q) as i32
}

/// Whether `point` lies in the navigable rectangle of the map, borders
/// included.
pub open spec fn in_rectangle(map: OccupancyMap, point: Point) -> bool {
    &&& map.pixel_bounds.0 * UNITS_PER_PIXEL <= point.x <= map.pixel_bounds.2 * UNITS_PER_PIXEL
    &&& map.pixel_bounds.1 * UNITS_PER_PIXEL <= point.y <= map.pixel_bounds.3 * UNITS_PER_PIXEL
}

/// An occupancy map: the image, and the rectangle of it that can be navigated.
pub struct OccupancyMap {
    /// The image of the map; black pixels are obstacles.
    pub image: MapImage,
    /// The navigable rectangle in pixels, as `(x_min, y_min, x_max, y_max)`.
    pub pixel_bounds: (u32, u32, u32, u32),
}

impl OccupancyMap {
    /// The rectangle is not empty, and its corners fit the coordinate range.
    pub open spec fn wf(&self) -> bool {
        &&& self.pixel_bounds.0 <= self.pixel_bounds.2 <= MAX_PIXEL
        &&& self.pixel_bounds.1 <= self.pixel_bounds.3 <= MAX_PIXEL
    }

    /// Whether `point` lies on an obstacle: its pixel is black, or lies right
    /// of or below the image.
    pub open spec fn obstructed(&self, point: Point) -> bool {
        ||| pixel_of(point.x) >= image_width(self.image)
        ||| pixel_of(point.y) >= image_height(self.image)
        ||| spec_is_black(image_pixels(self.image)[(pixel_of(point.x), pixel_of(point.y))])
    }

    /// Whether one of the `steps + 1` evenly spaced points from `start` to
    /// `end` lies on an obstacle.
    pub open spec fn path_colliding(&self, start: Point, end: Point, steps: int) -> bool {
        exists|i: int| 0 <= i <= steps && self.obstructed(#[trigger] sample_point(start, end, steps, i))
    }

    /// Whether the rectangle is not empty and its corners fit the coordinate
    /// range.
    pub fn is_well_formed(&self) -> (r: bool)
        ensures
            r == self.wf(),
    {
        self.pixel_bounds.0 <= self.pixel_bounds.2 && self.pixel_bounds.2 <= MAX_PIXEL && self.pixel_bounds.1
            <= self.pixel_bounds.3 && self.pixel_bounds.3 <= MAX_PIXEL
    }

    /// The navigable rectangle in coordinate units, as
    /// `(x_min, y_min, x_max, y_max)`: the least and the greatest coordinates
    /// of its points.
    pub fn bounds(&self) -> (b: (i32, i32, i32, i32))
        requires
            self.wf(),
        ensures
            b.0 == self.pixel_bounds.0 * UNITS_PER_PIXEL,
            b.1 == self.pixel_bounds.1 * UNITS_PER_PIXEL,
            b.2 == self.pixel_bounds.2 * UNITS_PER_PIXEL,
            b.3 == self.pixel_bounds.3 * UNITS_PER_PIXEL,
            forall|p: Point| in_rectangle(*self, p) <==> b.0 <= p.x <= b.2 && b.1 <= p.y <= b.3,
    {
        (
            (self.pixel_bounds.0 * 100) as i32,
            (self.pixel_bounds.1 * 100) as i32,
            (self.pixel_bounds.2 * 100) as i32,
            (self.pixel_bounds.3 * 100) as i32,
        )
    }

    /// The occupancy map of an image, with its navigable rectangle.
    pub fn new(image: MapImage) -> (map: OccupancyMap)
        requires
            1 <= image_width(image) <= MAX_PIXEL + 1,
            1 <= image_height(image) <= MAX_PIXEL + 1,
        ensures
            map.image == image,
            image.is_bounds(map.pixel_bounds),
            map.wf(),
    {
        let pixel_bounds: (u32, u32, u32, u32) = find_bounds(&image);
        OccupancyMap { image, pixel_bounds }
    }

    /// Whether `point` lies on an obstacle.
    pub fn is_obstructed(&self, point: &Point) -> (r: bool)
        ensures
            r == self.obstructed(*point),
    {
        let px: u32 = if point.x < 0 {
            0
        } else {
            (point.x as u32 + 50) / 100
        };
        let py: u32 = if point.y < 0 {
            0
        } else {
            (point.y as u32 + 50) / 100
        };
        if px >= self.image.width() || py >= self.image.height() {
            return true;
        }
        is_black(image_pixel(&self.image, px, py))
    }

    /// Whether the straight segment from `start` to `end` touches an obstacle
    /// at one of `num_steps + 1` evenly spaced points, both ends included.
    pub fn is_path_colliding(&self, start: &Point, end: &Point, num_steps: i32) -> (r: bool)
        ensures
            r == self.path_colliding(*start, *end, num_steps as int),
    {
        if num_steps < 0 {
            return false;
        }
        if num_steps == 0 {
            let hit: bool = self.is_obstructed(start);
            assert(sample_point(*start, *end, 0, 0) == *start);
            return hit;
        }
        let mut i: i32 = 0;
        loop
            invariant
                0 <= i <= num_steps,
                num_steps >= 1,
                forall|k: int| 0 <= k < i ==> !self.obstructed(#[trigger] sample_point(*start, *end, num_steps as int, k)),
            decreases num_steps - i,
        {
            let check_point = Point {
                x: lerp(start.x, end.x, num_steps, i),
                y: lerp(start.y, end.y, num_steps, i),
            };
            assert(check_point == sample_point(*start, *end, num_steps as int, i as int));
            if self.is_obstructed(&check_point) {
                return true;
            }
            if i == num_steps {
                return false;
            }
            i += 1;
        }
    }
}

} // verus!
