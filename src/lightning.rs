//! A branching discharge: particles grow one step at a time from the nearest placed
//! particle toward randomly placed charges, painting a path that brightens as the
//! process nears its end.

use crate::canvas::{Canvas, CanvasView, Color};
use crate::random::{draw_u32, draw_u32_inclusive, draw_u8, draw_u8_inclusive, draw_usize};
use rand_chacha::ChaCha8Rng;
use vstd::prelude::*;

verus! {

/// Steps between two draws of the discharge zone.
pub const ZONE_PERIOD: u32 = 2000;

/// Squared Euclidean distance from the particle `p` to (x, y).
pub open spec fn sq_dist(p: (u32, u32), x: int, y: int) -> int {
    (p.0 - x) * (p.0 - x) + (p.1 - y) * (p.1 - y)
}

/// `n` is the first of the particles `ps[0..count]` at the least squared distance
/// from (x, y).
pub open spec fn is_first_nearest(ps: Seq<(u32, u32)>, count: int, x: int, y: int, n: int) -> bool {
    &&& 0 <= n < count
    &&& forall|j: int| 0 <= j < count ==> sq_dist(ps[n], x, y) <= #[trigger] sq_dist(ps[j], x, y)
    &&& forall|j: int| 0 <= j < n ==> sq_dist(ps[n], x, y) < #[trigger] sq_dist(ps[j], x, y)
}

pub open spec fn abs(v: int) -> int {
    if v < 0 { -v } else { v }
}

/// The unit step from (px, py) toward (x, y). Each axis steps toward the target, or
/// back by one where the coordinates agree; an axis whose distance exceeds three times
/// the other's zeroes the other's step.
pub open spec fn step_toward_spec(px: int, py: int, x: int, y: int) -> (int, int) {
    let dx: int = if px < x { 1 } else { -1 };
    let dy: int = if py < y { 1 } else { -1 };
    if abs(x - px) > 3 * abs(y - py) {
        (dx, 0)
    } else if abs(y - py) > 3 * abs(x - px) {
        (0, dy)
    } else {
        (dx, dy)
    }
}

/// The particle that grows from `p` toward the charge (x, y), kept at non-negative
/// coordinates.
pub open spec fn grown(p: (u32, u32), x: int, y: int) -> (int, int) {
    let (dx, dy) = step_toward_spec(p.0 as int, p.1 as int, x, y);
    let nx = p.0 + dx;
    let ny = p.1 + dy;
    (if nx < 0 { 0 } else { nx }, if ny < 0 { 0 } else { ny })
}

/// Where a particle or charge may stand: inside the canvas, above its last row.
pub open spec fn on_field(p: (u32, u32), width: int, height: int) -> bool {
    p.0 < width && p.1 + 2 <= height
}

/// The particles `a` and `b` are at most one unit apart along each axis.
pub open spec fn adjacent(a: (u32, u32), b: (u32, u32)) -> bool {
    abs(a.0 - b.0) <= 1 && abs(a.1 - b.1) <= 1
}

/// Particle `i` of the path stands next to an earlier particle.
pub open spec fn grows_from_earlier(ps: Seq<(u32, u32)>, i: int) -> bool {
    exists|n: int| 0 <= n < i && adjacent(#[trigger] ps[n], ps[i])
}

/// The pixel (x, y) is painted for one of the particles `1..count`: it is the particle's
/// own pixel or the one below it.
pub open spec fn on_path(ps: Seq<(u32, u32)>, count: int, x: int, y: int) -> bool {
    exists|i: int| 1 <= i < count && x == (#[trigger] ps[i]).0 && (y == ps[i].1 || y == ps[i].1 + 1)
}

/// The draws that place a charge in zone `distribution` of a `width` by `height`
/// canvas: `ran1` in [2, height - 1) and `ran2` in [1, width]; then, near the bottom
/// or the top, `a` in [0, width) and `b` in [0, ran1]; near the right or the left edge,
/// `a` in [0, ran2) and `b` in [0, height - 1).
pub open spec fn valid_charge_draws(
    distribution: int,
    width: int,
    height: int,
    ran1: int,
    ran2: int,
    a: int,
    b: int,
) -> bool {
    &&& 2 <= ran1 < height - 1
    &&& 1 <= ran2 <= width
    &&& if distribution <= 1 {
        0 <= a < width && 0 <= b <= ran1
    } else {
        0 <= a < ran2 && 0 <= b < height - 1
    }
}

/// The charge that the zone draws `a` and `b` give: `b` rows above the bottom edge's
/// last two rows (zone 0), at row `b` (zone 1), `a` columns in from the right edge
/// (zone 2), or at column `a` (zone 3).
pub open spec fn charge_spec(distribution: int, width: int, height: int, a: int, b: int) -> (int, int) {
    if distribution == 0 {
        (a, height - b - 2)
    } else if distribution == 1 {
        (a, b)
    } else if distribution == 2 {
        (width - a - 1, b)
    } else {
        (a, b)
    }
}

/// The charge position for the given zone draws; see `charge_spec`.
pub fn charge_from_draws(distribution: u8, width: u32, height: u32, ran1: u32, ran2: u32, a: u32, b: u32) -> (c: (
    u32,
    u32,
))
    requires
        distribution <= 3,
        valid_charge_draws(distribution as int, width as int, height as int, ran1 as int, ran2 as int, a as int, b as int),
    ensures
        c.0 == charge_spec(distribution as int, width as int, height as int, a as int, b as int).0,
        c.1 == charge_spec(distribution as int, width as int, height as int, a as int, b as int).1,
        on_field(c, width as int, height as int),
{
    if distribution == 0 {
        (a, height - b - 2)
    } else if distribution == 1 {
        (a, b)
    } else if distribution == 2 {
        (width - a - 1, b)
    } else {
        (a, b)
    }
}

/// The color of the path at step `step` of `total`: from (200, 200) toward
/// (red, green) as the steps run out; blue is full.
pub open spec fn path_color_spec(red: int, green: int, step: int, total: int) -> Color {
    [
        (red + (200 - red) * (total - step) / total) as u8,
        (green + (200 - green) * (total - step) / total) as u8,
        255,
    ]
}

/// A color the path may have.
pub open spec fn is_path_color(c: Color) -> bool {
    c[0] <= 200 && c[1] <= 200 && c[2] == 255
}

/// The index of the first particle among `particles[0..count]` nearest to (x, y).
pub fn nearest_particle(particles: &Vec<(u32, u32)>, count: usize, x: u32, y: u32) -> (n: usize)
    requires
        0 < count <= particles@.len(),
    ensures
        is_first_nearest(particles@, count as int, x as int, y as int, n as int),
{
    let mut best: usize = 0;
    let mut best_d: u128 = 0;
    let mut i: usize = 0;
    while i < count
        invariant
            0 < count <= particles@.len(),
            i <= count,
            i > 0 ==> best < i,
            i > 0 ==> best_d == sq_dist(particles@[best as int], x as int, y as int),
            forall|j: int| 0 <= j < i ==> best_d <= #[trigger] sq_dist(particles@[j], x as int, y as int),
            forall|j: int| 0 <= j < best ==> best_d < #[trigger] sq_dist(particles@[j], x as int, y as int),
        decreases count - i,
    {
        let p = particles[i];
        let ddx: u128 = if p.0 > x { (p.0 - x) as u128 } else { (x - p.0) as u128 };
        let ddy: u128 = if p.1 > y { (p.1 - y) as u128 } else { (y - p.1) as u128 };
        proof {
            assert(ddx * ddx <= 0xffff_ffff * 0xffff_ffff) by (nonlinear_arith)
                requires
                    ddx <= 0xffff_ffff,
            ;
            assert(ddy * ddy <= 0xffff_ffff * 0xffff_ffff) by (nonlinear_arith)
                requires
                    ddy <= 0xffff_ffff,
            ;
            assert(ddx * ddx == (p.0 - x) * (p.0 - x)) by (nonlinear_arith)
                requires
                    ddx == p.0 - x || ddx == x - p.0,
            ;
            assert(ddy * ddy == (p.1 - y) * (p.1 - y)) by (nonlinear_arith)
                requires
                    ddy == p.1 - y || ddy == y - p.1,
            ;
        }
        let d: u128 = ddx * ddx + ddy * ddy;
        if i == 0 || d < best_d {
            best = i;
            best_d = d;
        }
        i = i + 1;
    }
    best
}

/// The unit step from (px, py) toward (x, y); see `step_toward_spec`.
pub fn step_toward(px: u32, py: u32, x: u32, y: u32) -> (r: (i32, i32))
    ensures
        r.0 == step_toward_spec(px as int, py as int, x as int, y as int).0,
        r.1 == step_toward_spec(px as int, py as int, x as int, y as int).1,
{
    let dx: i32 = if px < x { 1 } else { -1 };
    let dy: i32 = if py < y { 1 } else { -1 };
    let ax: u64 = if px < x { (x - px) as u64 } else { (px - x) as u64 };
    let ay: u64 = if py < y { (y - py) as u64 } else { (py - y) as u64 };
    if ax > 3 * ay {
        (dx, 0)
    } else if ay > 3 * ax {
        (0, dy)
    } else {
        (dx, dy)
    }
}

/// The color of the path at step `step` of `total`; see `path_color_spec`.
pub fn path_color(red: u8, green: u8, step: u32, total: u32) -> (c: Color)
    requires
        red <= 200,
        green <= 200,
        step <= total,
        0 < total,
    ensures
        c == path_color_spec(red as int, green as int, step as int, total as int),
        is_path_color(c),
{
    let left: u64 = (total - step) as u64;
    proof {
        assert((200 - red) * left / total as int <= 200 - red) by (nonlinear_arith)
            requires
                0 <= left <= total,
                total > 0,
                red <= 200,
        ;
        assert((200 - green) * left / total as int <= 200 - green) by (nonlinear_arith)
            requires
                0 <= left <= total,
                total > 0,
                green <= 200,
        ;
        assert((200 - red) * left <= 200 * 0xffff_ffffnat) by (nonlinear_arith)
            requires
                left <= 0xffff_ffff,
                red <= 200,
        ;
        assert((200 - green) * left <= 200 * 0xffff_ffffnat) by (nonlinear_arith)
            requires
                left <= 0xffff_ffff,
                green <= 200,
        ;
    }
    let r: u64 = red as u64 + (200 - red) as u64 * left / total as u64;
    let g: u64 = green as u64 + (200 - green) as u64 * left / total as u64;
    [r as u8, g as u8, 255]
}

/// The branching discharge process.
pub struct Lightning {
    step: u32,
    distribution: u8,
    fg_color: Color,
    particles: Vec<(u32, u32)>,
}

impl Default for Lightning {
    fn default() -> (l: Lightning)
        ensures
            l.step() == 0,
            l.distribution() == 0,
            l.fg_color() == [255u8, 255u8, 255u8],
            l.particles().len() == 0,
    {
        Lightning { step: 0, distribution: 0, fg_color: [255, 255, 255], particles: Vec::new() }
    }
}

impl Lightning {
    /// Number of particles placed so far.
    pub closed spec fn step(&self) -> nat {
        self.step as nat
    }

    /// The discharge zone in force: near the bottom (0), the top (1), the right
    /// edge (2) or the left edge (3).
    pub closed spec fn distribution(&self) -> nat {
        self.distribution as nat
    }

    /// The color the next particle is painted in.
    pub closed spec fn fg_color(&self) -> Color {
        self.fg_color
    }

    /// The particle path of the last run, in the order the particles were placed.
    pub closed spec fn particles(&self) -> Seq<(u32, u32)> {
        self.particles@
    }

    /// The particle path of the last run, in the order the particles were placed.
    pub fn particle_path(&self) -> (v: &Vec<(u32, u32)>)
        ensures
            v@ == self.particles(),
    {
        &self.particles
    }

    /// Draws a new discharge zone.
    pub fn generate_distribution(&mut self, rng: &mut ChaCha8Rng)
        ensures
            final(self).distribution() <= 3,
            final(self).step() == old(self).step(),
            final(self).fg_color() == old(self).fg_color(),
    {
        self.distribution = draw_u8_inclusive(rng, 0, 3);
    }

    /// Places a new charge at random, biased toward the edge of the current zone: draws
    /// `ran1`, `ran2` and then the two zone draws, in that order (see
    /// `valid_charge_draws`), and turns them into a position with `charge_from_draws`.
    pub fn place_charge(&self, rng: &mut ChaCha8Rng, img: &Canvas) -> (c: (u32, u32))
        requires
            self.distribution() <= 3,
            img@.width >= 1,
            img@.height >= 4,
        ensures
            on_field(c, img@.width as int, img@.height as int),
            exists|ran1: int, ran2: int, a: int, b: int|
                #[trigger] valid_charge_draws(
                    self.distribution() as int,
                    img@.width as int,
                    img@.height as int,
                    ran1,
                    ran2,
                    a,
                    b,
                ) && c.0 == charge_spec(self.distribution() as int, img@.width as int, img@.height as int, a, b).0
                    && c.1 == charge_spec(self.distribution() as int, img@.width as int, img@.height as int, a, b).1,
    {
        let width: u32 = img.width();
        let height: u32 = img.height();
        let ran1: u32 = draw_u32(rng, 2, height - 1);
        let ran2: u32 = draw_u32_inclusive(rng, 1, width);
        let (a, b) = if self.distribution <= 1 {
            let a: u32 = draw_u32(rng, 0, width);
            let b: u32 = draw_u32_inclusive(rng, 0, ran1);
            (a, b)
        } else {
            let a: u32 = draw_u32(rng, 0, ran2);
            let b: u32 = draw_u32(rng, 0, height - 1);
            (a, b)
        };
        let c = charge_from_draws(self.distribution, width, height, ran1, ran2, a, b);
        proof {
            assert(valid_charge_draws(
                self.distribution() as int,
                width as int,
                height as int,
                ran1 as int,
                ran2 as int,
                a as int,
                b as int,
            ));
        }
        c
    }

    /// Grows particle number `step` from the first particle nearest to the charge,
    /// one unit toward the charge, and paints it and the pixel below it. Returns the
    /// index of the particle it grew from.
    pub fn grow_toward(&mut self, img: &mut Canvas, particles: &mut Vec<(u32, u32)>, charge: (u32, u32)) -> (n:
        usize)
        requires
            1 <= old(self).step() < old(particles)@.len() <= u32::MAX,
            on_field(charge, old(img)@.width as int, old(img)@.height as int),
            forall|i: int|
                0 <= i < old(self).step() ==> on_field(
                    #[trigger] old(particles)@[i],
                    old(img)@.width as int,
                    old(img)@.height as int,
                ),
        ensures
            is_first_nearest(old(particles)@, old(self).step() as int, charge.0 as int, charge.1 as int, n as int),
            final(particles)@.len() == old(particles)@.len(),
            final(particles)@[old(self).step() as int].0 == grown(old(particles)@[n as int], charge.0 as int, charge.1 as int).0,
            final(particles)@[old(self).step() as int].1 == grown(old(particles)@[n as int], charge.0 as int, charge.1 as int).1,
            final(particles)@ == old(particles)@.update(old(self).step() as int, final(particles)@[old(self).step() as int]),
            on_field(final(particles)@[old(self).step() as int], old(img)@.width as int, old(img)@.height as int),
            final(self).step() == old(self).step() + 1,
            final(self).distribution() == old(self).distribution(),
            final(self).fg_color() == old(self).fg_color(),
            final(self).particles() == old(self).particles(),
            ({
                let p = final(particles)@[old(self).step() as int];
                final(img)@ == old(img)@.with_pixel(p.0 as int, p.1 as int, old(self).fg_color()).with_pixel(
                    p.0 as int,
                    p.1 + 1,
                    old(self).fg_color(),
                )
            }),
            final(img)@.width == old(img)@.width,
            final(img)@.height == old(img)@.height,
            final(img)@.wf(),
            ({
                let p = final(particles)@[old(self).step() as int];
                forall|px: int, py: int|
                    old(img)@.in_bounds(px, py) ==> #[trigger] final(img)@.pixel(px, py) == if px == p.0 && (py
                        == p.1 || py == p.1 + 1) {
                        old(self).fg_color()
                    } else {
                        old(img)@.pixel(px, py)
                    }
            }),
    {
        let _width: u32 = img.width();
        let _height: u32 = img.height();
        let step: usize = self.step as usize;
        let n: usize = nearest_particle(particles, step, charge.0, charge.1);
        let p: (u32, u32) = particles[n];
        let (dx, dy) = step_toward(p.0, p.1, charge.0, charge.1);
        let nx: i64 = p.0 as i64 + dx as i64;
        let ny: i64 = p.1 as i64 + dy as i64;
        let next: (u32, u32) = (if nx < 0 { 0 } else { nx as u32 }, if ny < 0 { 0 } else { ny as u32 });
        particles.set(step, next);
        img.put_pixel(next.0, next.1, self.fg_color);
        img.put_pixel(next.0, next.1 + 1, self.fg_color);
        self.step = self.step + 1;
        n
    }

    /// One step of the process: places a charge and grows the path toward it.
    pub fn next_step(&mut self, rng: &mut ChaCha8Rng, img: &mut Canvas, particles: &mut Vec<(u32, u32)>)
        requires
            1 <= old(self).step() < old(particles)@.len() <= u32::MAX,
            old(self).distribution() <= 3,
            old(img)@.width >= 1,
            old(img)@.height >= 4,
            forall|i: int|
                0 <= i < old(self).step() ==> on_field(
                    #[trigger] old(particles)@[i],
                    old(img)@.width as int,
                    old(img)@.height as int,
                ),
        ensures
            final(particles)@.len() == old(particles)@.len(),
            forall|i: int|
                0 <= i < final(self).step() ==> on_field(
                    #[trigger] final(particles)@[i],
                    old(img)@.width as int,
                    old(img)@.height as int,
                ),
            final(particles)@ == old(particles)@.update(old(self).step() as int, final(particles)@[old(self).step() as int]),
            grows_from_earlier(final(particles)@, old(self).step() as int),
            exists|charge: (u32, u32), n: int|
                on_field(charge, old(img)@.width as int, old(img)@.height as int) && #[trigger] is_first_nearest(
                    old(particles)@,
                    old(self).step() as int,
                    charge.0 as int,
                    charge.1 as int,
                    n,
                ) && final(particles)@[old(self).step() as int].0 == grown(
                    old(particles)@[n],
                    charge.0 as int,
                    charge.1 as int,
                ).0 && final(particles)@[old(self).step() as int].1 == grown(
                    old(particles)@[n],
                    charge.0 as int,
                    charge.1 as int,
                ).1,
            final(self).step() == old(self).step() + 1,
            final(self).distribution() == old(self).distribution(),
            final(self).fg_color() == old(self).fg_color(),
            final(self).particles() == old(self).particles(),
            ({
                let p = final(particles)@[old(self).step() as int];
                final(img)@ == old(img)@.with_pixel(p.0 as int, p.1 as int, old(self).fg_color()).with_pixel(
                    p.0 as int,
                    p.1 + 1,
                    old(self).fg_color(),
                )
            }),
            final(img)@.width == old(img)@.width,
            final(img)@.height == old(img)@.height,
            final(img)@.wf(),
            ({
                let p = final(particles)@[old(self).step() as int];
                forall|px: int, py: int|
                    old(img)@.in_bounds(px, py) ==> #[trigger] final(img)@.pixel(px, py) == if px == p.0 && (py
                        == p.1 || py == p.1 + 1) {
                        old(self).fg_color()
                    } else {
                        old(img)@.pixel(px, py)
                    }
            }),
    {
        let charge = self.place_charge(rng, img);
        let ghost before = particles@;
        let n = self.grow_toward(img, particles, charge);
        proof {
            assert(is_first_nearest(before, old(self).step() as int, charge.0 as int, charge.1 as int, n as int));
            assert(particles@[n as int] == before[n as int]);
            assert(adjacent(particles@[n as int], particles@[old(self).step() as int]));
            assert forall|i: int| 0 <= i < self.step() implies on_field(
                #[trigger] particles@[i],
                img@.width as int,
                img@.height as int,
            ) by {
                if i < old(self).step() {
                    assert(particles@[i] == before[i]);
                }
            }
        }
    }
}

/// The widest canvas the process runs on: ten particles per column must fit in a `u32`.
pub const MAX_WIDTH: u32 = 429_496_729;

impl Lightning {
    /// Runs the process: plants particle 0 at a random column of the top row, then places
    /// ten particles per canvas column, each grown from the particle nearest a random
    /// charge and painted with the pixel below it, the zone being redrawn every 2000
    /// steps. Fails, leaving the canvas untouched, on a canvas with no column, fewer
    /// than four rows, or more than `MAX_WIDTH` columns.
    pub fn build(&mut self, rng: &mut ChaCha8Rng, img: &mut Canvas) -> (r: Result<(), String>)
        ensures
            r.is_err() <==> (old(img)@.width == 0 || old(img)@.height < 4 || old(img)@.width > MAX_WIDTH),
            r.is_err() ==> final(img)@ == old(img)@,
            final(img)@.width == old(img)@.width,
            final(img)@.height == old(img)@.height,
            final(img)@.wf(),
            r.is_ok() ==> {
                let ps = final(self).particles();
                &&& final(self).step() == 10 * old(img)@.width
                &&& exists|red: int, green: int|
                    0 <= red < 120 && 0 <= green < 120 && final(self).fg_color() == #[trigger] path_color_spec(
                        red,
                        green,
                        10 * old(img)@.width - 1,
                        (10 * old(img)@.width) as int,
                    )
                &&& ps.len() == 10 * old(img)@.width
                &&& ps[0].1 == 0
                &&& forall|i: int|
                    0 <= i < ps.len() ==> on_field(#[trigger] ps[i], old(img)@.width as int, old(img)@.height as int)
                &&& forall|i: int| 1 <= i < ps.len() ==> #[trigger] grows_from_earlier(ps, i)
                &&& forall|px: int, py: int|
                    old(img)@.in_bounds(px, py) && #[trigger] final(img)@.pixel(px, py) != old(img)@.pixel(px, py)
                        ==> on_path(ps, ps.len() as int, px, py)
                &&& forall|i: int|
                    1 <= i < ps.len() ==> is_path_color(final(img)@.pixel((#[trigger] ps[i]).0 as int, ps[i].1 as int))
                        && is_path_color(final(img)@.pixel(ps[i].0 as int, ps[i].1 + 1))
            },
    {
        let width: u32 = img.width();
        let height: u32 = img.height();
        if width == 0 || height < 4 {
            return Err("the canvas needs at least one column and four rows".to_owned());
        }
        if width > MAX_WIDTH {
            return Err("the canvas is too wide for this algorithm".to_owned());
        }
        let pnum: u32 = width * 10;
        let mut particles: Vec<(u32, u32)> = Vec::new();
        for i in 0..pnum
            invariant
                particles@.len() == i,
        {
            particles.push((0, 0));
        }
        self.generate_distribution(rng);
        let start: u32 = draw_usize(rng, 0, width as usize) as u32;
        particles.set(0, (start, 0));
        let red: u8 = draw_u8(rng, 0, 120);
        let green: u8 = draw_u8(rng, 0, 120);
        self.step = 1;
        let ghost before = img@;
        while self.step < pnum
            invariant
                1 <= self.step() <= pnum,
                pnum == particles@.len(),
                pnum <= u32::MAX,
                pnum == 10 * before.width,
                width == before.width,
                height == before.height,
                width >= 1,
                height >= 4,
                red < 120,
                green < 120,
                self.step() > 1 ==> self.fg_color() == path_color_spec(
                    red as int,
                    green as int,
                    self.step() - 1,
                    pnum as int,
                ),
                self.distribution() <= 3,
                particles@[0].1 == 0,
                forall|i: int| 0 <= i < self.step() ==> on_field(#[trigger] particles@[i], width as int, height as int),
                forall|i: int| 1 <= i < self.step() ==> #[trigger] grows_from_earlier(particles@, i),
                img@.width == before.width,
                img@.height == before.height,
                img@.wf(),
                forall|px: int, py: int|
                    before.in_bounds(px, py) && #[trigger] img@.pixel(px, py) != before.pixel(px, py) ==> on_path(
                        particles@,
                        self.step() as int,
                        px,
                        py,
                    ),
                forall|i: int|
                    1 <= i < self.step() ==> is_path_color(img@.pixel((#[trigger] particles@[i]).0 as int, particles@[i].1 as int))
                        && is_path_color(img@.pixel(particles@[i].0 as int, particles@[i].1 + 1)),
            decreases pnum - self.step(),
        {
            if self.step % ZONE_PERIOD == 0 {
                self.generate_distribution(rng);
            }
            self.fg_color = path_color(red, green, self.step, pnum);
            let ghost mid = img@;
            let ghost ps0 = particles@;
            let ghost k = self.step() as int;
            self.next_step(rng, img, &mut particles);
            proof {
                let p = particles@[k];
                assert(forall|i: int| 0 <= i < k ==> particles@[i] == ps0[i]);
                assert forall|i: int| 1 <= i < k + 1 implies #[trigger] grows_from_earlier(particles@, i) by {
                    if i < k {
                        assert(grows_from_earlier(ps0, i));
                        let n = choose|n: int| 0 <= n < i && adjacent(#[trigger] ps0[n], ps0[i]);
                        assert(particles@[n] == ps0[n]);
                        assert(adjacent(particles@[n], particles@[i]));
                    }
                }
                assert forall|px: int, py: int|
                    before.in_bounds(px, py) && #[trigger] img@.pixel(px, py) != before.pixel(px, py) implies on_path(
                    particles@,
                    k + 1,
                    px,
                    py,
                ) by {
                    assert(mid.in_bounds(px, py));
                    if px == p.0 && (py == p.1 || py == p.1 + 1) {
                        assert(1 <= k < k + 1 && px == particles@[k].0 && (py == particles@[k].1 || py == particles@[k].1 + 1));
                    } else {
                        assert(img@.pixel(px, py) == mid.pixel(px, py));
                        assert(on_path(ps0, k, px, py));
                        let i = choose|i: int| 1 <= i < k && px == (#[trigger] ps0[i]).0 && (py == ps0[i].1 || py == ps0[i].1 + 1);
                        assert(particles@[i] == ps0[i]);
                        assert(1 <= i < k + 1 && px == particles@[i].0 && (py == particles@[i].1 || py == particles@[i].1 + 1));
                    }
                }
                assert forall|i: int| 1 <= i < k + 1 implies is_path_color(img@.pixel((#[trigger] particles@[i]).0 as int, particles@[i].1 as int))
                    && is_path_color(img@.pixel(particles@[i].0 as int, particles@[i].1 + 1)) by {
                    let q = particles@[i];
                    assert(mid.in_bounds(q.0 as int, q.1 as int));
                    assert(mid.in_bounds(q.0 as int, q.1 + 1));
                    if i < k {
                        assert(q == ps0[i]);
                    }
                }
            }
        }
        self.particles = particles;
        proof {
            assert(self.fg_color() == path_color_spec(red as int, green as int, pnum - 1, pnum as int));
        }
        Ok(())
    }
}

} // verus!
