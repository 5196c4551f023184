//! The nearest-point field: random colored points are scattered over the canvas, and
//! each pixel takes the color of the point nearest to it.

use crate::canvas::{Canvas, CanvasView, Color};
use crate::random::{draw_u32, draw_u8};
use rand_chacha::ChaCha8Rng;
use vstd::prelude::*;

verus! {

/// A colored point of the field.
#[derive(Clone, Copy, Debug)]
pub struct Point {
    /// X coordinate.
    pub x: u32,
    /// Y coordinate.
    pub y: u32,
    /// The color of the point.
    pub color: Color,
}

/// Two points agree in position and in every channel.
pub open spec fn same_point(a: Point, b: Point) -> bool {
    a.x == b.x && a.y == b.y && a.color[0] == b.color[0] && a.color[1] == b.color[1] && a.color[2] == b.color[2]
}

impl PartialEq for Point {
    fn eq(&self, o: &Point) -> (r: bool) {
        self.x == o.x && self.y == o.y && self.color[0] == o.color[0] && self.color[1] == o.color[1]
            && self.color[2] == o.color[2]
    }
}

impl vstd::std_specs::cmp::PartialEqSpecImpl for Point {
    open spec fn obeys_eq_spec() -> bool {
        true
    }

    open spec fn eq_spec(&self, o: &Point) -> bool {
        same_point(*self, *o)
    }
}

impl Eq for Point {

}

/// Squared Euclidean distance from the point `p` to (x, y).
pub open spec fn point_sq_dist(p: Point, x: int, y: int) -> int {
    (p.x - x) * (p.x - x) + (p.y - y) * (p.y - y)
}

/// Index of the first point among `ps[0..k]` at the least distance from (x, y),
/// scanning from the front and moving on only to a strictly nearer point.
pub open spec fn nearest_index(ps: Seq<Point>, k: int, x: int, y: int) -> int
    decreases k,
{
    if k <= 1 {
        0
    } else {
        let b = nearest_index(ps, k - 1, x, y);
        if point_sq_dist(ps[k - 1], x, y) < point_sq_dist(ps[b], x, y) {
            k - 1
        } else {
            b
        }
    }
}

/// The color that the hard field gives the pixel (x, y): that of the first nearest
/// point, or black when there is no point.
pub open spec fn hard_color(ps: Seq<Point>, x: int, y: int) -> Color {
    if ps.len() == 0 {
        [0u8, 0u8, 0u8]
    } else {
        ps[nearest_index(ps, ps.len() as int, x, y)].color
    }
}

/// The first nearest point is nearest, and strictly nearer than every point before it.
pub proof fn lemma_nearest_index(ps: Seq<Point>, k: int, x: int, y: int)
    requires
        1 <= k <= ps.len(),
    ensures
        0 <= nearest_index(ps, k, x, y) < k,
        forall|j: int|
            0 <= j < k ==> point_sq_dist(ps[nearest_index(ps, k, x, y)], x, y) <= #[trigger] point_sq_dist(
                ps[j],
                x,
                y,
            ),
        forall|j: int|
            0 <= j < nearest_index(ps, k, x, y) ==> point_sq_dist(ps[nearest_index(ps, k, x, y)], x, y)
                < #[trigger] point_sq_dist(ps[j], x, y),
    decreases k,
{
    if k > 1 {
        lemma_nearest_index(ps, k - 1, x, y);
    }
}

impl Point {
    /// The color a pixel takes from this point.
    pub fn color_at(&self, x: u32, y: u32) -> (c: Color)
        ensures
            c == self.color,
    {
        self.color
    }

    /// A black point at the origin.
    pub fn black() -> (p: Point)
        ensures
            p == (Point { x: 0, y: 0, color: [0u8, 0u8, 0u8] }),
    {
        Point { x: 0, y: 0, color: [0, 0, 0] }
    }

    /// Squared distance from this point to (x, y).
    pub fn sq_distance_to(&self, x: u32, y: u32) -> (d: u128)
        ensures
            d == point_sq_dist(*self, x as int, y as int),
    {
        let dx: u128 = if self.x > x { (self.x - x) as u128 } else { (x - self.x) as u128 };
        let dy: u128 = if self.y > y { (self.y - y) as u128 } else { (y - self.y) as u128 };
        proof {
            assert(dx * dx <= 0xffff_ffff * 0xffff_ffff) by (nonlinear_arith)
                requires
                    dx <= 0xffff_ffff,
            ;
            assert(dy * dy <= 0xffff_ffff * 0xffff_ffff) by (nonlinear_arith)
                requires
                    dy <= 0xffff_ffff,
            ;
            assert(dx * dx == (self.x - x) * (self.x - x)) by (nonlinear_arith)
                requires
                    dx == self.x - x || dx == x - self.x,
            ;
            assert(dy * dy == (self.y - y) * (self.y - y)) by (nonlinear_arith)
                requires
                    dy == self.y - y || dy == y - self.y,
            ;
        }
        dx * dx + dy * dy
    }
}

/// A point of the field: on the canvas, with a light color (each channel in [128, 255]).
pub open spec fn is_field_point(p: Point, width: int, height: int) -> bool {
    p.x < width && p.y < height && p.color[0] >= 128 && p.color[1] >= 128 && p.color[2] >= 128
}

/// No two points are equal in position and color.
pub open spec fn all_distinct(ps: Seq<Point>) -> bool {
    forall|i: int, j: int| 0 <= i < j < ps.len() ==> ps[i] != ps[j]
}

/// The nearest-point field, each pixel colored by its nearest point.
pub struct NearestPoint {
    points: Vec<Point>,
}

impl Default for NearestPoint {
    fn default() -> (n: NearestPoint)
        ensures
            n.points().len() == 0,
    {
        NearestPoint { points: Vec::new() }
    }
}

/// Canvas pixels per point.
pub const PIXELS_PER_POINT: u64 = 20000;

impl NearestPoint {
    /// The points of the field, in the order they were placed.
    pub closed spec fn points(&self) -> Seq<Point> {
        self.points@
    }

    /// A field holding the given points, in the given order.
    pub fn from_points(points: Vec<Point>) -> (n: NearestPoint)
        ensures
            n.points() == points@,
    {
        NearestPoint { points }
    }

    /// The points of the field, in the order they were placed.
    pub fn point_list(&self) -> (v: &Vec<Point>)
        ensures
            v@ == self.points(),
    {
        &self.points
    }

    /// Whether the field already holds `p`.
    fn contains(&self, p: Point) -> (r: bool)
        ensures
            r == exists|j: int| 0 <= j < self.points().len() && same_point(#[trigger] self.points()[j], p),
            !r ==> forall|j: int| 0 <= j < self.points().len() ==> #[trigger] self.points()[j] != p,
    {
        let mut i: usize = 0;
        while i < self.points.len()
            invariant
                i <= self.points@.len(),
                forall|j: int| 0 <= j < i ==> !same_point(#[trigger] self.points@[j], p),
                forall|j: int| 0 <= j < i ==> #[trigger] self.points@[j] != p,
            decreases self.points@.len() - i,
        {
            if self.points[i] == p {
                proof {
                    assert(same_point(self.points()[i as int], p));
                }
                return true;
            }
            i = i + 1;
        }
        false
    }

    /// Places `num_points` random points with random light colors; a point equal in
    /// position and color to one already placed is not added again.
    pub fn populate_points(&mut self, rng: &mut ChaCha8Rng, num_points: usize, img: &Canvas)
        requires
            img@.width > 0,
            img@.height > 0,
            all_distinct(old(self).points()),
        ensures
            all_distinct(final(self).points()),
            final(self).points().len() <= old(self).points().len() + num_points,
            num_points > 0 ==> final(self).points().len() > 0,
            final(self).points().subrange(0, old(self).points().len() as int) == old(self).points(),
            forall|i: int|
                old(self).points().len() <= i < final(self).points().len() ==> is_field_point(
                    #[trigger] final(self).points()[i],
                    img@.width as int,
                    img@.height as int,
                ),
    {
        let width: u32 = img.width();
        let height: u32 = img.height();
        let ghost start = self.points@;
        for k in 0..num_points
            invariant
                width == img@.width > 0,
                height == img@.height > 0,
                all_distinct(self.points@),
                self.points@.len() <= start.len() + k,
                k > 0 ==> self.points@.len() > 0,
                start.len() <= self.points@.len(),
                self.points@.subrange(0, start.len() as int) == start,
                forall|i: int|
                    start.len() <= i < self.points@.len() ==> is_field_point(
                        #[trigger] self.points@[i],
                        width as int,
                        height as int,
                    ),
        {
            let x: u32 = draw_u32(rng, 0, width);
            let y: u32 = draw_u32(rng, 0, height);
            let color: Color = [draw_u8(rng, 0, 128) + 128, draw_u8(rng, 0, 128) + 128, draw_u8(rng, 0, 128) + 128];
            let p = Point { x, y, color };
            let ghost pts = self.points();
            if !self.contains(p) {
                let ghost before = self.points@;
                self.points.push(p);
                proof {
                    assert(self.points@.subrange(0, start.len() as int) =~= before.subrange(0, start.len() as int));
                    assert forall|i: int, j: int| 0 <= i < j < self.points@.len() implies self.points@[i]
                        != self.points@[j] by {
                        if j == self.points@.len() - 1 {
                            assert(pts[i] != p);
                        }
                    }
                }
            } else {
                proof {
                    assert(self.points@.len() > 0);
                }
            }
        }
    }

    /// The color of the pixel (x, y): that of the first point nearest to it, or black
    /// when the field has no point.
    pub fn nearest_color(&self, x: u32, y: u32) -> (c: Color)
        ensures
            c == hard_color(self.points(), x as int, y as int),
    {
        let n: usize = self.points.len();
        if n == 0 {
            return Point::black().color_at(x, y);
        }
        let mut best: usize = 0;
        let mut best_d: u128 = self.points[0].sq_distance_to(x, y);
        for k in 1..n
            invariant
                n == self.points@.len(),
                best == nearest_index(self.points@, k as int, x as int, y as int),
                0 <= best < k,
                best_d == point_sq_dist(self.points@[best as int], x as int, y as int),
        {
            proof {
                lemma_nearest_index(self.points@, k as int, x as int, y as int);
            }
            let d: u128 = self.points[k].sq_distance_to(x, y);
            if d < best_d {
                best = k;
                best_d = d;
            }
        }
        proof {
            lemma_nearest_index(self.points@, n as int, x as int, y as int);
        }
        self.points[best].color_at(x, y)
    }

    /// Colors every pixel with the color of its nearest point.
    pub fn color_image(&self, img: &mut Canvas)
        ensures
            final(img)@.width == old(img)@.width,
            final(img)@.height == old(img)@.height,
            final(img)@.wf(),
            forall|x: int, y: int|
                old(img)@.in_bounds(x, y) ==> #[trigger] final(img)@.pixel(x, y) == hard_color(self.points(), x, y),
    {
        let width: u32 = img.width();
        let height: u32 = img.height();
        let ghost before = img@;
        for y in 0..height
            invariant
                width == before.width,
                height == before.height,
                img@.width == before.width,
                img@.height == before.height,
                img@.wf(),
                forall|px: int, py: int|
                    before.in_bounds(px, py) ==> #[trigger] img@.pixel(px, py) == if py < y {
                        hard_color(self.points(), px, py)
                    } else {
                        before.pixel(px, py)
                    },
        {
            for x in 0..width
                invariant
                    width == before.width,
                    height == before.height,
                    y < height,
                    img@.width == before.width,
                    img@.height == before.height,
                    img@.wf(),
                    forall|px: int, py: int|
                        before.in_bounds(px, py) ==> #[trigger] img@.pixel(px, py) == if py < y || (py == y && px
                            < x) {
                            hard_color(self.points(), px, py)
                        } else {
                            before.pixel(px, py)
                        },
            {
                let c: Color = self.nearest_color(x, y);
                img.put_pixel(x, y, c);
            }
        }
    }

    /// Replaces the points with one random point per 20000 canvas pixels (at least two,
    /// repeats dropped). Fails, placing none, on an empty canvas.
    pub fn place_points(&mut self, rng: &mut ChaCha8Rng, img: &Canvas) -> (r: Result<(), String>)
        ensures
            r.is_ok() <==> (img@.width > 0 && img@.height > 0),
            r.is_err() ==> final(self).points() == old(self).points(),
            r.is_ok() ==> {
                &&& final(self).points().len() > 0
                &&& all_distinct(final(self).points())
                &&& forall|i: int|
                    0 <= i < final(self).points().len() ==> is_field_point(
                        #[trigger] final(self).points()[i],
                        img@.width as int,
                        img@.height as int,
                    )
            },
    {
        let width: u32 = img.width();
        let height: u32 = img.height();
        if width == 0 || height == 0 {
            return Err("the canvas has no pixel".to_owned());
        }
        self.points = Vec::new();
        let area: u64 = width as u64 * height as u64 / PIXELS_PER_POINT;
        let num_points: usize = if area > 2 { area as usize } else { 2 };
        self.populate_points(rng, num_points, img);
        Ok(())
    }

    /// Runs the algorithm: places the points (see `place_points`), then colors every
    /// pixel by its nearest point. Fails, leaving the canvas untouched, on an empty
    /// canvas.
    pub fn build(&mut self, rng: &mut ChaCha8Rng, img: &mut Canvas) -> (r: Result<(), String>)
        ensures
            r.is_ok() <==> (old(img)@.width > 0 && old(img)@.height > 0),
            r.is_err() ==> final(img)@ == old(img)@,
            r.is_ok() ==> {
                &&& final(self).points().len() > 0
                &&& all_distinct(final(self).points())
                &&& forall|i: int|
                    0 <= i < final(self).points().len() ==> is_field_point(
                        #[trigger] final(self).points()[i],
                        old(img)@.width as int,
                        old(img)@.height as int,
                    )
                &&& final(img)@.width == old(img)@.width
                &&& final(img)@.height == old(img)@.height
                &&& forall|x: int, y: int|
                    old(img)@.in_bounds(x, y) ==> #[trigger] final(img)@.pixel(x, y) == hard_color(
                        final(self).points(),
                        x,
                        y,
                    )
            },
    {
        self.place_points(rng, img)?;
        self.color_image(img);
        Ok(())
    }
}

} // verus!
