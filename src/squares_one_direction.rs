//! Block averaging with a directional bias: the canvas is cut into blocks, and each
//! block in turn takes the (weighted) mean color of its already-colored neighbours,
//! with one channel nudged at random.

use crate::canvas::{Canvas, CanvasView};
use crate::random::{draw_i32_inclusive, draw_u8, draw_usize};
use crate::squares_layer::{block_before, block_count, LayerView, SquaresLayer};
use rand_chacha::ChaCha8Rng;
use vstd::prelude::*;

verus! {

/// Largest neighbour weight a configuration may carry.
pub const MAX_WEIGHT: usize = 1000;

/// Largest number of pre-seeded blocks per million canvas pixels.
pub const MAX_RANDOM_POINTS: usize = 1000;

/// The neighbours that count more than the others in a block's average.
#[derive(Clone, Copy, PartialEq, Eq, Structural)]
pub enum Direction {
    /// Left and right neighbours.
    Horizontal,
    /// Upper and lower neighbours.
    Vertical,
    /// The four corner neighbours.
    Diagonal,
    /// No neighbour counts more than another.
    Unbiased,
}

/// How many times the block (xx, yy) enters the average around (sx, sy).
pub open spec fn weight_of(direction: Direction, weight: nat, sx: int, sy: int, xx: int, yy: int) -> nat {
    match direction {
        Direction::Horizontal => if yy == sy && xx != sx { weight } else { 1 },
        Direction::Vertical => if xx == sx && yy != sy { weight } else { 1 },
        Direction::Diagonal => if xx != sx && yy != sy { weight } else { 1 },
        Direction::Unbiased => 1,
    }
}

/// First index of the 3-wide window around s.
pub open spec fn window_lo(s: int) -> int {
    if s >= 1 { s - 1 } else { 0 }
}

/// Last index of the 3-wide window around s, in a row of n.
pub open spec fn window_hi(s: int, n: int) -> int {
    if s + 1 <= n - 1 { s + 1 } else { n - 1 }
}

/// A color drawn at random for a block: each channel below 255.
pub open spec fn is_random_color(c: [u8; 3]) -> bool {
    c[0] < 255 && c[1] < 255 && c[2] < 255
}

/// `value` moved by `offset`, kept within [0, 255].
pub open spec fn clamp_channel(value: int, offset: int) -> u8 {
    if value + offset > 255 {
        255
    } else if value + offset < 0 {
        0
    } else {
        (value + offset) as u8
    }
}

/// `color` with channel `channel` moved by `offset` and clamped to [0, 255].
pub open spec fn perturb(color: [u8; 3], channel: int, offset: int) -> [u8; 3] {
    if channel == 0 {
        [clamp_channel(color[0] as int, offset), color[1], color[2]]
    } else if channel == 1 {
        [color[0], clamp_channel(color[1] as int, offset), color[2]]
    } else {
        [color[0], color[1], clamp_channel(color[2] as int, offset)]
    }
}

/// The state of the algorithm, as mathematics.
pub struct DirectionalView {
    pub layer: LayerView<[u8; 3]>,
    pub variation_amount: u8,
    pub visited: Seq<Seq<bool>>,
    pub direction: Direction,
    pub weight: nat,
    pub additional_random_points: nat,
}

impl DirectionalView {
    /// The layer and the visitation grid have the same shape; the block size is positive.
    pub open spec fn wf(self) -> bool {
        &&& self.layer.wf()
        &&& self.layer.squaresize_h > 0
        &&& self.layer.squaresize_v > 0
        &&& self.visited.len() == self.layer.squares_h
        &&& forall|x: int| 0 <= x < self.layer.squares_h ==> (#[trigger] self.visited[x]).len() == self.layer.squares_v
        &&& self.weight <= MAX_WEIGHT
        &&& self.additional_random_points <= MAX_RANDOM_POINTS
    }

    pub open spec fn in_grid(self, x: int, y: int) -> bool {
        0 <= x < self.layer.squares_h && 0 <= y < self.layer.squares_v
    }

    pub open spec fn is_visited(self, x: int, y: int) -> bool {
        self.visited[x][y]
    }

    /// Every block has received its color.
    pub open spec fn all_visited(self) -> bool {
        forall|x: int, y: int| self.in_grid(x, y) ==> #[trigger] self.is_visited(x, y)
    }

    /// What the block (xx, yy) adds to channel c (0 to 2) of the weighted sum around
    /// (sx, sy); for c == 3, what it adds to the number of entries.
    pub open spec fn term(self, sx: int, sy: int, xx: int, yy: int, c: int) -> nat {
        if self.is_visited(xx, yy) {
            weight_of(self.direction, self.weight, sx, sy, xx, yy) * (if c < 3 {
                self.layer.color(xx, yy)[c] as nat
            } else {
                1nat
            })
        } else {
            0
        }
    }

    /// Sum of `term` over the rows of the window around sy, in column xx, below y_end.
    pub open spec fn column_sum(self, sx: int, sy: int, xx: int, y_end: int, c: int) -> nat
        decreases y_end - window_lo(sy),
    {
        if y_end <= window_lo(sy) {
            0
        } else {
            self.column_sum(sx, sy, xx, y_end - 1, c) + self.term(sx, sy, xx, y_end - 1, c)
        }
    }

    /// Sum of `term` over the window around (sx, sy), in the columns below x_end.
    pub open spec fn window_sum(self, sx: int, sy: int, x_end: int, c: int) -> nat
        decreases x_end - window_lo(sx),
    {
        if x_end <= window_lo(sx) {
            0
        } else {
            self.window_sum(sx, sy, x_end - 1, c) + self.column_sum(
                sx,
                sy,
                x_end - 1,
                window_hi(sy, self.layer.squares_v as int) + 1,
                c,
            )
        }
    }

    /// Sum of `term` over the whole window around (sx, sy).
    pub open spec fn neighbourhood_sum(self, sx: int, sy: int, c: int) -> nat {
        self.window_sum(sx, sy, window_hi(sx, self.layer.squares_h as int) + 1, c)
    }

    /// The weighted mean color of the visited blocks in the 3x3 window around (sx, sy),
    /// each channel rounded down; `None` when no entry counts.
    pub open spec fn average(self, sx: int, sy: int) -> Option<[u8; 3]> {
        let n = self.neighbourhood_sum(sx, sy, 3);
        if n == 0 {
            None
        } else {
            Some(
                [
                    (self.neighbourhood_sum(sx, sy, 0) / n) as u8,
                    (self.neighbourhood_sum(sx, sy, 1) / n) as u8,
                    (self.neighbourhood_sum(sx, sy, 2) / n) as u8,
                ],
            )
        }
    }
}

/// Block averaging over the canvas with a directional bias: the blocks of the
/// favoured direction count `weight` times in each average.
pub struct SquaresOneDirection {
    squares: SquaresLayer<[u8; 3]>,
    variation_amount: u8,
    visited_squares: Vec<Vec<bool>>,
    direction: Direction,
    weight: usize,
    additional_random_points: usize,
    seed_colors: Ghost<Seq<Seq<Option<[u8; 3]>>>>,
}

impl View for SquaresOneDirection {
    type V = DirectionalView;

    closed spec fn view(&self) -> DirectionalView {
        DirectionalView {
            layer: self.squares@,
            variation_amount: self.variation_amount,
            visited: self.visited_squares@.map_values(|col: Vec<bool>| col@),
            direction: self.direction,
            weight: self.weight as nat,
            additional_random_points: self.additional_random_points as nat,
        }
    }
}

impl DirectionalView {
    /// A fresh configuration: an empty 10 by 10 pixel block layer, nothing visited.
    pub open spec fn configured(
        self,
        direction: Direction,
        variation_amount: u8,
        weight: nat,
        additional_random_points: nat,
    ) -> bool {
        &&& self.wf()
        &&& self.layer.squares_h == 0
        &&& self.layer.squares_v == 0
        &&& self.layer.squaresize_h == 10
        &&& self.layer.squaresize_v == 10
        &&& self.direction == direction
        &&& self.variation_amount == variation_amount
        &&& self.weight == weight
        &&& self.additional_random_points == additional_random_points
    }
}

impl SquaresOneDirection {
    fn configured(direction: Direction, variation_amount: u8, weight: usize, additional_random_points: usize) -> (s:
        Self)
        requires
            weight <= MAX_WEIGHT,
            additional_random_points <= MAX_RANDOM_POINTS,
        ensures
            s@.configured(direction, variation_amount, weight as nat, additional_random_points as nat),
    {
        let s = SquaresOneDirection {
            squares: SquaresLayer::new(0, 0, 10, 10),
            variation_amount,
            visited_squares: Vec::new(),
            direction,
            weight,
            additional_random_points,
            seed_colors: Ghost(Seq::empty()),
        };
        proof {
            assert(s@.visited =~= Seq::<Seq<bool>>::empty());
        }
        s
    }

    /// Left and right neighbours count six times; variation 25.
    pub fn new_horiz() -> (s: Self)
        ensures
            s@.configured(Direction::Horizontal, 25, 6, 0),
    {
        Self::configured(Direction::Horizontal, 25, 6, 0)
    }

    /// Upper and lower neighbours count four times; variation 25.
    pub fn new_vert() -> (s: Self)
        ensures
            s@.configured(Direction::Vertical, 25, 4, 0),
    {
        Self::configured(Direction::Vertical, 25, 4, 0)
    }

    /// Corner neighbours count four times; variation 25.
    pub fn new_diag() -> (s: Self)
        ensures
            s@.configured(Direction::Diagonal, 25, 4, 0),
    {
        Self::configured(Direction::Diagonal, 25, 4, 0)
    }

    /// Every neighbour counts once; variation 20.
    pub fn new_nodir() -> (s: Self)
        ensures
            s@.configured(Direction::Unbiased, 20, 0, 0),
    {
        Self::configured(Direction::Unbiased, 20, 0, 0)
    }

    /// Every neighbour counts once; variation 20; 32 random blocks per million pixels first.
    pub fn new_nodir_randomized() -> (s: Self)
        ensures
            s@.configured(Direction::Unbiased, 20, 0, 32),
    {
        Self::configured(Direction::Unbiased, 20, 0, 32)
    }

    /// Left and right neighbours count twenty times; variation 25; 48 random blocks per
    /// million pixels first.
    pub fn new_horiz_randomized() -> (s: Self)
        ensures
            s@.configured(Direction::Horizontal, 25, 20, 48),
    {
        Self::configured(Direction::Horizontal, 25, 20, 48)
    }

    /// Upper and lower neighbours count eight times; variation 25; 48 random blocks per
    /// million pixels first.
    pub fn new_vert_randomized() -> (s: Self)
        ensures
            s@.configured(Direction::Vertical, 25, 8, 48),
    {
        Self::configured(Direction::Vertical, 25, 8, 48)
    }

    /// The color of the block (x, y) if it has been visited.
    pub fn get_square_color(&self, square_x: usize, square_y: usize) -> (r: Option<&[u8; 3]>)
        requires
            self@.wf(),
            self@.in_grid(square_x as int, square_y as int),
        ensures
            r.is_some() == self@.is_visited(square_x as int, square_y as int),
            r.is_some() ==> *r.unwrap() == self@.layer.color(square_x as int, square_y as int),
    {
        proof {
            assert(self@.visited[square_x as int] == self.visited_squares@[square_x as int]@);
        }
        if self.visited_squares[square_x][square_y] {
            Some(self.squares.get_color_at(square_x, square_y))
        } else {
            None
        }
    }

    /// How many times the block (xx, yy) counts in the average around (sx, sy).
    fn weight_at(&self, sx: usize, sy: usize, xx: usize, yy: usize) -> (k: u64)
        requires
            self@.wf(),
        ensures
            k == weight_of(self@.direction, self@.weight, sx as int, sy as int, xx as int, yy as int),
            k <= MAX_WEIGHT,
    {
        let heavy: bool = match self.direction {
            Direction::Horizontal => yy == sy && xx != sx,
            Direction::Vertical => xx == sx && yy != sy,
            Direction::Diagonal => xx != sx && yy != sy,
            Direction::Unbiased => false,
        };
        if heavy {
            self.weight as u64
        } else {
            1
        }
    }

    /// The weighted mean color of the visited blocks among the block (x, y) and its
    /// (up to) eight neighbours; `None` when none of them counts.
    pub fn get_average_color_of_squares(&self, square_x: usize, square_y: usize) -> (r: Option<[u8; 3]>)
        requires
            self@.wf(),
            self@.in_grid(square_x as int, square_y as int),
        ensures
            r == self@.average(square_x as int, square_y as int),
    {
        let ghost v = self@;
        let ghost sx = square_x as int;
        let ghost sy = square_y as int;
        let h: usize = self.squares.squares_h();
        let w: usize = self.squares.squares_v();
        let x_lo: usize = if square_x >= 1 { square_x - 1 } else { 0 };
        let x_hi: usize = if square_x + 1 <= h - 1 { square_x + 1 } else { h - 1 };
        let y_lo: usize = if square_y >= 1 { square_y - 1 } else { 0 };
        let y_hi: usize = if square_y + 1 <= w - 1 { square_y + 1 } else { w - 1 };
        let mut red: u64 = 0;
        let mut green: u64 = 0;
        let mut blue: u64 = 0;
        let mut count: u64 = 0;
        let mut xx: usize = x_lo;
        while xx <= x_hi
            invariant
                v == self@,
                v.wf(),
                v.in_grid(sx, sy),
                sx == square_x,
                sy == square_y,
                h == v.layer.squares_h,
                w == v.layer.squares_v,
                x_lo == window_lo(sx),
                x_hi == window_hi(sx, h as int),
                y_lo == window_lo(sy),
                y_hi == window_hi(sy, w as int),
                x_lo <= xx <= x_hi + 1,
                x_hi < h,
                x_hi <= x_lo + 2,
                y_hi <= y_lo + 2,
                y_lo <= y_hi < w,
                red == v.window_sum(sx, sy, xx as int, 0),
                green == v.window_sum(sx, sy, xx as int, 1),
                blue == v.window_sum(sx, sy, xx as int, 2),
                count == v.window_sum(sx, sy, xx as int, 3),
                red <= 255 * count,
                green <= 255 * count,
                blue <= 255 * count,
                count <= 3000 * (xx - x_lo),
            decreases x_hi + 1 - xx,
        {
            let mut yy: usize = y_lo;
            while yy <= y_hi
                invariant
                    v == self@,
                    v.wf(),
                    v.in_grid(sx, sy),
                    sx == square_x,
                    sy == square_y,
                    h == v.layer.squares_h,
                    w == v.layer.squares_v,
                    x_lo == window_lo(sx),
                    y_lo == window_lo(sy),
                    y_hi == window_hi(sy, w as int),
                    x_lo <= xx <= x_hi,
                    x_hi < h,
                    x_hi <= x_lo + 2,
                    y_hi <= y_lo + 2,
                    y_lo <= yy <= y_hi + 1,
                    y_hi < w,
                    red == v.window_sum(sx, sy, xx as int, 0) + v.column_sum(sx, sy, xx as int, yy as int, 0),
                    green == v.window_sum(sx, sy, xx as int, 1) + v.column_sum(sx, sy, xx as int, yy as int, 1),
                    blue == v.window_sum(sx, sy, xx as int, 2) + v.column_sum(sx, sy, xx as int, yy as int, 2),
                    count == v.window_sum(sx, sy, xx as int, 3) + v.column_sum(sx, sy, xx as int, yy as int, 3),
                    red <= 255 * count,
                    green <= 255 * count,
                    blue <= 255 * count,
                    count <= 3000 * (xx - x_lo) + 1000 * (yy - y_lo),
                decreases y_hi + 1 - yy,
            {
                if let Some(color) = self.get_square_color(xx, yy) {
                    let k: u64 = self.weight_at(square_x, square_y, xx, yy);
                    proof {
                        assert(k * color[0] <= 255 * k) by (nonlinear_arith)
                            requires
                                color[0] <= 255,
                                0 <= k,
                        ;
                        assert(k * color[1] <= 255 * k) by (nonlinear_arith)
                            requires
                                color[1] <= 255,
                                0 <= k,
                        ;
                        assert(k * color[2] <= 255 * k) by (nonlinear_arith)
                            requires
                                color[2] <= 255,
                                0 <= k,
                        ;
                    }
                    red = red + k * color[0] as u64;
                    green = green + k * color[1] as u64;
                    blue = blue + k * color[2] as u64;
                    count = count + k;
                }
                yy = yy + 1;
            }
            xx = xx + 1;
        }
        if count > 0 {
            proof {
                assert(red / count <= 255) by (nonlinear_arith)
                    requires
                        red <= 255 * count,
                        count > 0,
                ;
                assert(green / count <= 255) by (nonlinear_arith)
                    requires
                        green <= 255 * count,
                        count > 0,
                ;
                assert(blue / count <= 255) by (nonlinear_arith)
                    requires
                        blue <= 255 * count,
                        count > 0,
                ;
            }
            Some([(red / count) as u8, (green / count) as u8, (blue / count) as u8])
        } else {
            None
        }
    }
}

impl DirectionalView {
    /// The same configuration and block layout (sizes, counts, direction, weights).
    pub open spec fn same_setup(self, other: DirectionalView) -> bool {
        &&& other.layer.squaresize_h == self.layer.squaresize_h
        &&& other.layer.squaresize_v == self.layer.squaresize_v
        &&& other.layer.squares_h == self.layer.squares_h
        &&& other.layer.squares_v == self.layer.squares_v
        &&& other.layer.mixmode == self.layer.mixmode
        &&& other.variation_amount == self.variation_amount
        &&& other.direction == self.direction
        &&& other.weight == self.weight
        &&& other.additional_random_points == self.additional_random_points
    }

    /// The block (x, y) colored `c` and marked visited; nothing else changed.
    pub open spec fn with_block(self, x: int, y: int, c: [u8; 3]) -> DirectionalView {
        DirectionalView {
            layer: LayerView { data: self.layer.data.update(x, self.layer.data[x].update(y, c)), ..self.layer },
            visited: self.visited.update(x, self.visited[x].update(y, true)),
            ..self
        }
    }

    /// A color that the sweep may give the block (x, y): the weighted neighbourhood
    /// mean with one channel moved by at most the variation amount, or, with no
    /// neighbour to average, any color whose channels lie below 255.
    pub open spec fn allowed_color(self, x: int, y: int, c: [u8; 3]) -> bool {
        match self.average(x, y) {
            Some(a) => exists|channel: int, offset: int|
                0 <= channel < 3 && -(self.variation_amount as int) <= offset <= self.variation_amount
                    && c == #[trigger] perturb(a, channel, offset),
            None => c[0] < 255 && c[1] < 255 && c[2] < 255,
        }
    }
}

/// `color` with channel `channel` moved by `offset`, clamped to [0, 255].
pub fn perturbed(color: [u8; 3], channel: usize, offset: i32) -> (r: [u8; 3])
    requires
        channel < 3,
    ensures
        r == perturb(color, channel as int, offset as int),
{
    let moved: i64 = color[channel] as i64 + offset as i64;
    let value: u8 = if moved > 255 {
        255
    } else if moved < 0 {
        0
    } else {
        moved as u8
    };
    let mut r: [u8; 3] = color;
    r[channel] = value;
    proof {
        assert(r@ =~= perturb(color, channel as int, offset as int)@);
    }
    r
}

/// Number of blocks to seed at random: `per_million` for each million canvas pixels,
/// rounded down.
pub open spec fn seeded_blocks(per_million: nat, width: nat, height: nat) -> nat {
    per_million * width * height / 1_000_000
}

impl SquaresOneDirection {
    /// Marks the block (x, y) visited.
    fn mark_visited(&mut self, x: usize, y: usize)
        requires
            old(self)@.wf(),
            old(self)@.in_grid(x as int, y as int),
        ensures
            final(self)@ == (DirectionalView {
                visited: old(self)@.visited.update(x as int, old(self)@.visited[x as int].update(y as int, true)),
                ..old(self)@
            }),
    {
        let mut col: Vec<bool> = Vec::new();
        core::mem::swap(&mut col, &mut self.visited_squares[x]);
        proof {
            assert(col@ == old(self)@.visited[x as int]);
        }
        col.set(y, true);
        core::mem::swap(&mut col, &mut self.visited_squares[x]);
        proof {
            assert(self@.visited =~= old(self)@.visited.update(
                x as int,
                old(self)@.visited[x as int].update(y as int, true),
            ));
        }
    }

    /// Colors the block (x, y) and marks it visited.
    fn set_block(&mut self, x: usize, y: usize, c: [u8; 3])
        requires
            old(self)@.wf(),
            old(self)@.in_grid(x as int, y as int),
        ensures
            final(self)@ == old(self)@.with_block(x as int, y as int, c),
            final(self)@.wf(),
    {
        self.squares.set_color_at(x, y, c);
        self.mark_visited(x, y);
        proof {
            assert(self@.layer == old(self)@.with_block(x as int, y as int, c).layer);
            assert(self@.visited =~= old(self)@.with_block(x as int, y as int, c).visited);
        }
    }

    /// Gives the block (x, y) its color: the weighted mean of its visited neighbours
    /// with one random channel moved by a random amount within the variation, or a
    /// random color when no neighbour counts. Marks the block visited.
    pub fn color_square_average(&mut self, rng: &mut ChaCha8Rng, square_x: usize, square_y: usize)
        requires
            old(self)@.wf(),
            old(self)@.in_grid(square_x as int, square_y as int),
        ensures
            final(self)@.wf(),
            final(self)@ == old(self)@.with_block(
                square_x as int,
                square_y as int,
                final(self)@.layer.color(square_x as int, square_y as int),
            ),
            old(self)@.allowed_color(
                square_x as int,
                square_y as int,
                final(self)@.layer.color(square_x as int, square_y as int),
            ),
    {
        let c: [u8; 3] = match self.get_average_color_of_squares(square_x, square_y) {
            Some(average_color) => {
                let variation: i32 = self.variation_amount as i32;
                let color_offset: i32 = draw_i32_inclusive(rng, -variation, variation);
                let channel_id: usize = draw_usize(rng, 0, 3);
                let c = perturbed(average_color, channel_id, color_offset);
                proof {
                    assert(c == perturb(average_color, channel_id as int, color_offset as int));
                }
                c
            },
            None => [draw_u8(rng, 0, 255), draw_u8(rng, 0, 255), draw_u8(rng, 0, 255)],
        };
        self.set_block(square_x, square_y, c);
        proof {
            assert(self@.layer.data[square_x as int][square_y as int] == c);
        }
    }

    /// Seeds `count` random blocks with random colors and marks them visited.
    fn populate_points(&mut self, rng: &mut ChaCha8Rng, count: usize)
        requires
            old(self)@.wf(),
            old(self)@.layer.squares_h > 0,
            old(self)@.layer.squares_v > 0,
        ensures
            final(self)@.wf(),
            final(self)@.same_setup(old(self)@),
            count == 0 ==> final(self)@ == old(self)@,
            count > 0 ==> exists|x: int, y: int| final(self)@.in_grid(x, y) && #[trigger] final(self)@.is_visited(x, y),
            forall|x: int, y: int| old(self)@.in_grid(x, y) && old(self)@.is_visited(x, y) ==> #[trigger] final(self)@.is_visited(x, y),
            forall|x: int, y: int|
                old(self)@.in_grid(x, y) && final(self)@.is_visited(x, y) && !old(self)@.is_visited(x, y)
                    ==> is_random_color(#[trigger] final(self)@.layer.color(x, y)),
    {
        let h: usize = self.squares.squares_h();
        let v: usize = self.squares.squares_v();
        for i in 0..count
            invariant
                self@.wf(),
                self@.same_setup(old(self)@),
                count == 0 ==> self@ == old(self)@,
                i > 0 ==> exists|x: int, y: int| self@.in_grid(x, y) && #[trigger] self@.is_visited(x, y),
                forall|x: int, y: int| old(self)@.in_grid(x, y) && old(self)@.is_visited(x, y) ==> #[trigger] self@.is_visited(x, y),
                forall|x: int, y: int|
                    old(self)@.in_grid(x, y) && self@.is_visited(x, y) && !old(self)@.is_visited(x, y)
                        ==> is_random_color(#[trigger] self@.layer.color(x, y)),
                h == self@.layer.squares_h > 0,
                v == self@.layer.squares_v > 0,
        {
            let x: usize = draw_usize(rng, 0, h);
            let y: usize = draw_usize(rng, 0, v);
            let color: [u8; 3] = [draw_u8(rng, 0, 255), draw_u8(rng, 0, 255), draw_u8(rng, 0, 255)];
            let ghost prev = self@;
            self.set_block(x, y, color);
            proof {
                assert(self@.in_grid(x as int, y as int) && self@.is_visited(x as int, y as int));
                assert forall|bx: int, by: int| old(self)@.in_grid(bx, by) && old(self)@.is_visited(bx, by) implies #[trigger] self@.is_visited(bx, by) by {
                    assert(prev.is_visited(bx, by));
                }
                assert forall|bx: int, by: int|
                    old(self)@.in_grid(bx, by) && self@.is_visited(bx, by) && !old(self)@.is_visited(bx, by) implies is_random_color(
                    #[trigger] self@.layer.color(bx, by),
                ) by {
                    if bx != x || by != y {
                        assert(prev.is_visited(bx, by));
                        assert(self@.layer.color(bx, by) == prev.layer.color(bx, by));
                    }
                }
            }
        }
    }

    /// Fits the layer to the canvas and clears the visitation grid.
    fn reset_grid(&mut self, width: usize, height: usize)
        requires
            old(self)@.wf(),
        ensures
            final(self)@.wf(),
            final(self)@.layer.squares_h == block_count(width as nat, old(self)@.layer.squaresize_h),
            final(self)@.layer.squares_v == block_count(height as nat, old(self)@.layer.squaresize_v),
            final(self)@.layer.squaresize_h == old(self)@.layer.squaresize_h,
            final(self)@.layer.squaresize_v == old(self)@.layer.squaresize_v,
            final(self)@.layer.mixmode == old(self)@.layer.mixmode,
            final(self)@.variation_amount == old(self)@.variation_amount,
            final(self)@.direction == old(self)@.direction,
            final(self)@.weight == old(self)@.weight,
            final(self)@.additional_random_points == old(self)@.additional_random_points,
            forall|x: int, y: int| final(self)@.in_grid(x, y) ==> !#[trigger] final(self)@.is_visited(x, y),
    {
        self.squares.adjust_square_count_to_image_dimensions(width, height);
        let h: usize = self.squares.squares_h();
        let v: usize = self.squares.squares_v();
        let mut visited: Vec<Vec<bool>> = Vec::new();
        for x in 0..h
            invariant
                visited@.len() == x,
                forall|i: int| 0 <= i < x ==> (#[trigger] visited@[i])@.len() == v,
                forall|i: int, j: int| 0 <= i < x && 0 <= j < v ==> !#[trigger] visited@[i]@[j],
        {
            let mut col: Vec<bool> = Vec::new();
            for y in 0..v
                invariant
                    col@.len() == y,
                    forall|j: int| 0 <= j < y ==> !#[trigger] col@[j],
            {
                col.push(false);
            }
            visited.push(col);
        }
        self.visited_squares = visited;
    }

    /// Runs the algorithm: fits the block grid to the canvas (whole blocks, at least one
    /// each way), seeds the configured share of random blocks, colors every block in
    /// column-major order, then draws the blocks onto the canvas. Fails, leaving the
    /// canvas untouched, when the blocks reach past the canvas.
    /// The color of each block seeded at random in the last run, before the sweep
    /// (`None` for a block that was not seeded).
    pub closed spec fn seed_colors(&self) -> Seq<Seq<Option<[u8; 3]>>> {
        self.seed_colors@
    }

    pub fn build(&mut self, rng: &mut ChaCha8Rng, canvas: &mut Canvas) -> (r: Result<(), String>)
        requires
            old(self)@.wf(),
        ensures
            final(self)@.wf(),
            final(self)@.layer.squaresize_h == old(self)@.layer.squaresize_h,
            final(self)@.layer.squaresize_v == old(self)@.layer.squaresize_v,
            final(self)@.direction == old(self)@.direction,
            final(self)@.weight == old(self)@.weight,
            final(self)@.variation_amount == old(self)@.variation_amount,
            final(self)@.additional_random_points == old(self)@.additional_random_points,
            final(self)@.layer.squares_h == block_count(old(canvas)@.width, old(self)@.layer.squaresize_h),
            final(self)@.layer.squares_v == block_count(old(canvas)@.height, old(self)@.layer.squaresize_v),
            final(self)@.all_visited(),
            r.is_err() <==> (final(self)@.layer.layer_width() > old(canvas)@.width
                || final(self)@.layer.layer_height() > old(canvas)@.height),
            r.is_err() ==> final(canvas)@ == old(canvas)@,
            r.is_ok() ==> final(self)@.layer.rendered(old(canvas)@, final(canvas)@),
            seeded_blocks(old(self)@.additional_random_points, old(canvas)@.width, old(canvas)@.height) == 0
                ==> final(self)@.sweep_consistent(),
            final(self)@.sweep_consistent_with(final(self).seed_colors()),
            final(self).seed_colors().len() == final(self)@.layer.squares_h,
            forall|x: int| 0 <= x < final(self)@.layer.squares_h ==> (#[trigger] final(self).seed_colors()[x]).len() == final(self)@.layer.squares_v,
            forall|x: int, y: int|
                final(self)@.in_grid(x, y) && #[trigger] final(self).seed_colors()[x][y] is Some ==> is_random_color(
                    final(self).seed_colors()[x][y]->Some_0,
                ),
            seeded_blocks(old(self)@.additional_random_points, old(canvas)@.width, old(canvas)@.height) == 0
                ==> forall|x: int, y: int| final(self)@.in_grid(x, y) ==> #[trigger] final(self).seed_colors()[x][y] is None,
    {
        let width: u32 = canvas.width();
        let height: u32 = canvas.height();
        self.reset_grid(width as usize, height as usize);
        proof {
            assert(self@.layer.squares_h > 0 && self@.layer.squares_v > 0);
        }
        let ghost setup = self@;
        proof {
            assert(self.additional_random_points * width <= 1000 * 0xffff_ffffnat) by (nonlinear_arith)
                requires
                    self.additional_random_points <= 1000,
                    width <= 0xffff_ffff,
            ;
            assert(self.additional_random_points * width * height <= 1000 * 0xffff_ffffnat * 0xffff_ffffnat)
                by (nonlinear_arith)
                requires
                    self.additional_random_points * width <= 1000 * 0xffff_ffffnat,
                    height <= 0xffff_ffff,
            ;
        }
        let scaled: u128 = self.additional_random_points as u128 * width as u128 * height as u128 / 1_000_000;
        let seeds: usize = if scaled > usize::MAX as u128 { usize::MAX } else { scaled as usize };
        self.populate_points(rng, seeds);
        let ghost unseeded = seeded_blocks(old(self)@.additional_random_points, width as nat, height as nat) == 0;
        proof {
            assert(unseeded ==> seeds == 0);
        }
        let ghost seeds = Seq::new(
            self@.layer.squares_h,
            |bx: int|
                Seq::new(
                    self@.layer.squares_v,
                    |by: int| if self@.is_visited(bx, by) { Some(self@.layer.color(bx, by)) } else { None },
                ),
        );
        let h: usize = self.squares.squares_h();
        let v: usize = self.squares.squares_v();
        for x in 0..h
            invariant
                self@.wf(),
                self@.same_setup(setup),
                seeds.len() == h,
                forall|bx: int| 0 <= bx < h ==> (#[trigger] seeds[bx]).len() == v,
                forall|bx: int, by: int| self@.in_grid(bx, by) && #[trigger] seeds[bx][by] is Some ==> is_random_color(seeds[bx][by]->Some_0),
                unseeded ==> forall|bx: int, by: int| self@.in_grid(bx, by) ==> #[trigger] seeds[bx][by] is None,
                forall|bx: int, by: int|
                    self@.in_grid(bx, by) ==> #[trigger] self@.is_visited(bx, by) == (block_before(bx, by, x as int, 0)
                        || seeds[bx][by] is Some),
                forall|bx: int, by: int|
                    self@.in_grid(bx, by) && !block_before(bx, by, x as int, 0) && #[trigger] seeds[bx][by] is Some
                        ==> seeds[bx][by] == Some(self@.layer.color(bx, by)),
                forall|bx: int, by: int|
                    self@.in_grid(bx, by) && block_before(bx, by, x as int, 0) ==> #[trigger] self@.state_at(
                        seeds,
                        bx,
                        by,
                    ).allowed_color(bx, by, self@.layer.color(bx, by)),
                h == self@.layer.squares_h,
                v == self@.layer.squares_v,
                forall|bx: int, by: int| self@.in_grid(bx, by) && bx < x ==> #[trigger] self@.is_visited(bx, by),
                unseeded ==> forall|bx: int, by: int|
                    self@.in_grid(bx, by) ==> #[trigger] self@.is_visited(bx, by) == block_before(bx, by, x as int, 0),
                unseeded ==> forall|bx: int, by: int|
                    self@.in_grid(bx, by) && block_before(bx, by, x as int, 0) ==> #[trigger] self@.swept_before(
                        bx,
                        by,
                    ).allowed_color(bx, by, self@.layer.color(bx, by)),
        {
            for y in 0..v
                invariant
                    self@.wf(),
                    self@.same_setup(setup),
                    x < h,
                    seeds.len() == h,
                    forall|bx: int| 0 <= bx < h ==> (#[trigger] seeds[bx]).len() == v,
                    forall|bx: int, by: int| self@.in_grid(bx, by) && #[trigger] seeds[bx][by] is Some ==> is_random_color(seeds[bx][by]->Some_0),
                    unseeded ==> forall|bx: int, by: int| self@.in_grid(bx, by) ==> #[trigger] seeds[bx][by] is None,
                    forall|bx: int, by: int|
                        self@.in_grid(bx, by) ==> #[trigger] self@.is_visited(bx, by) == (block_before(
                            bx,
                            by,
                            x as int,
                            y as int,
                        ) || seeds[bx][by] is Some),
                    forall|bx: int, by: int|
                        self@.in_grid(bx, by) && !block_before(bx, by, x as int, y as int) && #[trigger] seeds[bx][by] is Some
                            ==> seeds[bx][by] == Some(self@.layer.color(bx, by)),
                    forall|bx: int, by: int|
                        self@.in_grid(bx, by) && block_before(bx, by, x as int, y as int) ==> #[trigger] self@.state_at(
                            seeds,
                            bx,
                            by,
                        ).allowed_color(bx, by, self@.layer.color(bx, by)),
                    h == self@.layer.squares_h,
                    v == self@.layer.squares_v,
                    forall|bx: int, by: int|
                        self@.in_grid(bx, by) && block_before(bx, by, x as int, y as int)
                            ==> #[trigger] self@.is_visited(bx, by),
                    unseeded ==> forall|bx: int, by: int|
                        self@.in_grid(bx, by) ==> #[trigger] self@.is_visited(bx, by) == block_before(
                            bx,
                            by,
                            x as int,
                            y as int,
                        ),
                    unseeded ==> forall|bx: int, by: int|
                        self@.in_grid(bx, by) && block_before(bx, by, x as int, y as int) ==> #[trigger] self@.swept_before(
                            bx,
                            by,
                        ).allowed_color(bx, by, self@.layer.color(bx, by)),
            {
                let ghost prev = self@;
                self.color_square_average(rng, x, y);
                proof {
                    assert forall|bx: int, by: int|
                        self@.in_grid(bx, by) && block_before(bx, by, x as int, y + 1) implies #[trigger] self@.is_visited(
                        bx,
                        by,
                    ) by {
                        if bx != x || by != y {
                            assert(prev.is_visited(bx, by));
                        }
                    }
                    assert forall|bx: int, by: int| self@.in_grid(bx, by) implies #[trigger] self@.is_visited(bx, by)
                        == (block_before(bx, by, x as int, y + 1) || seeds[bx][by] is Some) by {
                        if bx != x || by != y {
                            assert(self@.is_visited(bx, by) == prev.is_visited(bx, by));
                        }
                    }
                    assert forall|bx: int, by: int|
                        self@.in_grid(bx, by) && !block_before(bx, by, x as int, y + 1) && #[trigger] seeds[bx][by] is Some
                            implies seeds[bx][by] == Some(self@.layer.color(bx, by)) by {
                        assert(prev.layer.color(bx, by) == self@.layer.color(bx, by));
                    }
                    assert forall|bx: int, by: int|
                        self@.in_grid(bx, by) && block_before(bx, by, x as int, y + 1) implies #[trigger] self@.state_at(
                        seeds,
                        bx,
                        by,
                    ).allowed_color(bx, by, self@.layer.color(bx, by)) by {
                        let now = self@.state_at(seeds, bx, by);
                        if bx == x && by == y {
                            assert forall|qx: int, qy: int| prev.in_grid(qx, qy) && prev.is_visited(qx, qy) implies #[trigger] prev.layer.color(
                                qx,
                                qy,
                            ) == now.layer.color(qx, qy) by {
                                if !block_before(qx, qy, x as int, y as int) {
                                    assert(seeds[qx][qy] is Some);
                                }
                            }
                            assert(prev.same_reading(now));
                            lemma_average_reads_visited(prev, now, bx, by);
                        } else {
                            let then = prev.state_at(seeds, bx, by);
                            assert(then.allowed_color(bx, by, prev.layer.color(bx, by)));
                            assert forall|qx: int, qy: int| then.in_grid(qx, qy) && then.is_visited(qx, qy) implies #[trigger] then.layer.color(
                                qx,
                                qy,
                            ) == now.layer.color(qx, qy) by {
                                if block_before(qx, qy, bx, by) {
                                    assert(prev.layer.color(qx, qy) == self@.layer.color(qx, qy));
                                }
                            }
                            assert(then.same_reading(now));
                            lemma_average_reads_visited(then, now, bx, by);
                        }
                    }
                    if unseeded {
                        assert forall|bx: int, by: int| self@.in_grid(bx, by) implies #[trigger] self@.is_visited(bx, by)
                            == block_before(bx, by, x as int, y + 1) by {
                            if bx != x || by != y {
                                assert(self@.is_visited(bx, by) == prev.is_visited(bx, by));
                            }
                        }
                        assert forall|bx: int, by: int|
                            self@.in_grid(bx, by) && block_before(bx, by, x as int, y + 1) implies #[trigger] self@.swept_before(
                            bx,
                            by,
                        ).allowed_color(bx, by, self@.layer.color(bx, by)) by {
                            let now = self@.swept_before(bx, by);
                            if bx == x && by == y {
                                assert(prev.same_reading(now));
                                lemma_average_reads_visited(prev, now, bx, by);
                            } else {
                                let then = prev.swept_before(bx, by);
                                assert(prev.swept_before(bx, by).allowed_color(bx, by, prev.layer.color(bx, by)));
                                assert(self@.layer.color(bx, by) == prev.layer.color(bx, by));
                                assert(then.same_reading(now));
                                lemma_average_reads_visited(then, now, bx, by);
                            }
                        }
                    }
                }
            }
        }
        self.seed_colors = Ghost(seeds);
        proof {
            assert forall|bx: int, by: int| self@.in_grid(bx, by) implies #[trigger] self@.state_at(seeds, bx, by).allowed_color(
                bx,
                by,
                self@.layer.color(bx, by),
            ) by {
                assert(block_before(bx, by, h as int, 0));
            }
            if unseeded {
                assert forall|bx: int, by: int| self@.in_grid(bx, by) implies #[trigger] self@.swept_before(
                    bx,
                    by,
                ).allowed_color(bx, by, self@.layer.color(bx, by)) by {
                    assert(block_before(bx, by, h as int, 0));
                }
            }
        }
        self.squares.draw(canvas)
    }
}

/// Each channel sum in a column of the window is at most 255 times its number of entries.
proof fn lemma_column_sum_bound(v: DirectionalView, sx: int, sy: int, xx: int, y_end: int, c: int)
    requires
        0 <= c < 3,
    ensures
        v.column_sum(sx, sy, xx, y_end, c) <= 255 * v.column_sum(sx, sy, xx, y_end, 3),
    decreases y_end - window_lo(sy),
{
    if y_end > window_lo(sy) {
        lemma_column_sum_bound(v, sx, sy, xx, y_end - 1, c);
        let k = weight_of(v.direction, v.weight, sx, sy, xx, y_end - 1);
        if v.is_visited(xx, y_end - 1) {
            let ch = v.layer.color(xx, y_end - 1)[c] as nat;
            assert(k * ch <= 255 * k) by (nonlinear_arith)
                requires
                    ch <= 255,
            ;
        }
    }
}

/// Each channel sum over the window is at most 255 times its number of entries.
proof fn lemma_window_sum_bound(v: DirectionalView, sx: int, sy: int, x_end: int, c: int)
    requires
        0 <= c < 3,
    ensures
        v.window_sum(sx, sy, x_end, c) <= 255 * v.window_sum(sx, sy, x_end, 3),
    decreases x_end - window_lo(sx),
{
    if x_end > window_lo(sx) {
        lemma_window_sum_bound(v, sx, sy, x_end - 1, c);
        lemma_column_sum_bound(v, sx, sy, x_end - 1, window_hi(sy, v.layer.squares_v as int) + 1, c);
    }
}

/// Weighted averaging stays within the channel range: each channel of the mean is the
/// weighted channel sum divided by the number of entries, exactly, and at most 255.
pub proof fn lemma_average_in_range(v: DirectionalView, sx: int, sy: int)
    ensures
        v.average(sx, sy) matches Some(a) ==> forall|c: int|
            0 <= c < 3 ==> {
                &&& v.neighbourhood_sum(sx, sy, c) / v.neighbourhood_sum(sx, sy, 3) <= 255
                &&& #[trigger] a[c] as int == v.neighbourhood_sum(sx, sy, c) / v.neighbourhood_sum(sx, sy, 3)
            },
{
    let n = v.neighbourhood_sum(sx, sy, 3);
    if n > 0 {
        assert forall|c: int| 0 <= c < 3 implies v.neighbourhood_sum(sx, sy, c) / n <= 255 by {
            lemma_window_sum_bound(v, sx, sy, window_hi(sx, v.layer.squares_h as int) + 1, c);
            let t = v.neighbourhood_sum(sx, sy, c);
            assert(t / n <= 255) by (nonlinear_arith)
                requires
                    t <= 255 * n,
                    n > 0,
            ;
        }
    }
}

/// A perturbed color moves only the chosen channel, and keeps it within [0, 255].
pub proof fn lemma_perturb_in_range(color: [u8; 3], channel: int, offset: int)
    requires
        0 <= channel < 3,
    ensures
        perturb(color, channel, offset)[channel] as int == if color[channel] + offset > 255 {
            255
        } else if color[channel] + offset < 0 {
            0
        } else {
            color[channel] + offset
        },
        forall|c: int| 0 <= c < 3 && c != channel ==> #[trigger] perturb(color, channel, offset)[c] == color[c],
{
}

impl DirectionalView {
    /// This state with exactly the blocks before (x, y) in column-major order marked visited.
    pub open spec fn swept_before(self, x: int, y: int) -> DirectionalView {
        DirectionalView {
            visited: Seq::new(
                self.layer.squares_h,
                |bx: int| Seq::new(self.layer.squares_v, |by: int| block_before(bx, by, x, y)),
            ),
            ..self
        }
    }

    /// Every block holds a color that the sweep may give it when the blocks before it
    /// hold their present colors and no other block is visited.
    pub open spec fn sweep_consistent(self) -> bool {
        forall|x: int, y: int|
            self.in_grid(x, y) ==> #[trigger] self.swept_before(x, y).allowed_color(x, y, self.layer.color(x, y))
    }

    /// Two states agree on what an average reads: the same shape, weights and visited
    /// blocks, and the same color on every visited block.
    pub open spec fn same_reading(self, other: DirectionalView) -> bool {
        &&& self.layer.squares_h == other.layer.squares_h
        &&& self.layer.squares_v == other.layer.squares_v
        &&& self.direction == other.direction
        &&& self.weight == other.weight
        &&& forall|x: int, y: int| self.in_grid(x, y) ==> #[trigger] self.is_visited(x, y) == other.is_visited(x, y)
        &&& forall|x: int, y: int|
            self.in_grid(x, y) && self.is_visited(x, y) ==> #[trigger] self.layer.color(x, y) == other.layer.color(x, y)
    }
}

proof fn lemma_column_sum_reads_visited(
    a: DirectionalView,
    b: DirectionalView,
    sx: int,
    sy: int,
    xx: int,
    y_end: int,
    c: int,
)
    requires
        a.same_reading(b),
        0 <= xx < a.layer.squares_h,
        y_end <= a.layer.squares_v,
    ensures
        a.column_sum(sx, sy, xx, y_end, c) == b.column_sum(sx, sy, xx, y_end, c),
    decreases y_end - window_lo(sy),
{
    if y_end > window_lo(sy) {
        lemma_column_sum_reads_visited(a, b, sx, sy, xx, y_end - 1, c);
        assert(a.in_grid(xx, y_end - 1));
    }
}

proof fn lemma_window_sum_reads_visited(a: DirectionalView, b: DirectionalView, sx: int, sy: int, x_end: int, c: int)
    requires
        a.same_reading(b),
        x_end <= a.layer.squares_h,
        0 <= sy < a.layer.squares_v,
    ensures
        a.window_sum(sx, sy, x_end, c) == b.window_sum(sx, sy, x_end, c),
    decreases x_end - window_lo(sx),
{
    if x_end > window_lo(sx) {
        lemma_window_sum_reads_visited(a, b, sx, sy, x_end - 1, c);
        lemma_column_sum_reads_visited(a, b, sx, sy, x_end - 1, window_hi(sy, a.layer.squares_v as int) + 1, c);
    }
}

impl DirectionalView {
    /// The state when the sweep reaches (x, y), rebuilt from this final state and the
    /// seed colors: the blocks before (x, y) are visited with their present colors; a
    /// later block is visited exactly when it was seeded, with its seed color.
    pub open spec fn state_at(self, seeds: Seq<Seq<Option<[u8; 3]>>>, x: int, y: int) -> DirectionalView {
        DirectionalView {
            layer: LayerView {
                data: Seq::new(
                    self.layer.squares_h,
                    |bx: int|
                        Seq::new(
                            self.layer.squares_v,
                            |by: int|
                                if block_before(bx, by, x, y) {
                                    self.layer.data[bx][by]
                                } else {
                                    match seeds[bx][by] {
                                        Some(c) => c,
                                        None => self.layer.data[bx][by],
                                    }
                                },
                        ),
                ),
                ..self.layer
            },
            visited: Seq::new(
                self.layer.squares_h,
                |bx: int|
                    Seq::new(self.layer.squares_v, |by: int| block_before(bx, by, x, y) || seeds[bx][by] is Some),
            ),
            ..self
        }
    }

    /// Every block holds a color that the sweep may give it in the state when the sweep
    /// reaches it (see `state_at`).
    pub open spec fn sweep_consistent_with(self, seeds: Seq<Seq<Option<[u8; 3]>>>) -> bool {
        forall|x: int, y: int|
            self.in_grid(x, y) ==> #[trigger] self.state_at(seeds, x, y).allowed_color(x, y, self.layer.color(x, y))
    }
}

/// An average reads only the visited blocks and their colors.
pub proof fn lemma_average_reads_visited(a: DirectionalView, b: DirectionalView, sx: int, sy: int)
    requires
        a.same_reading(b),
        a.in_grid(sx, sy),
    ensures
        a.average(sx, sy) == b.average(sx, sy),
{
    let x_end = window_hi(sx, a.layer.squares_h as int) + 1;
    lemma_window_sum_reads_visited(a, b, sx, sy, x_end, 0);
    lemma_window_sum_reads_visited(a, b, sx, sy, x_end, 1);
    lemma_window_sum_reads_visited(a, b, sx, sy, x_end, 2);
    lemma_window_sum_reads_visited(a, b, sx, sy, x_end, 3);
}

impl DirectionalView {
    /// The block (xx, yy) lies in the window around (sx, sy) and enters its average at
    /// least once.
    pub open spec fn counts_in(self, sx: int, sy: int, xx: int, yy: int) -> bool {
        &&& window_lo(sx) <= xx <= window_hi(sx, self.layer.squares_h as int)
        &&& window_lo(sy) <= yy <= window_hi(sy, self.layer.squares_v as int)
        &&& self.is_visited(xx, yy)
        &&& weight_of(self.direction, self.weight, sx, sy, xx, yy) > 0
    }
}

proof fn lemma_column_sum_between(
    v: DirectionalView,
    sx: int,
    sy: int,
    xx: int,
    y_end: int,
    c: int,
    lo: int,
    hi: int,
)
    requires
        0 <= c < 3,
        forall|yy: int|
            window_lo(sy) <= yy < y_end && v.is_visited(xx, yy) && weight_of(v.direction, v.weight, sx, sy, xx, yy)
                > 0 ==> lo <= (#[trigger] v.layer.color(xx, yy))[c] <= hi,
    ensures
        lo * v.column_sum(sx, sy, xx, y_end, 3) <= v.column_sum(sx, sy, xx, y_end, c) <= hi * v.column_sum(
            sx,
            sy,
            xx,
            y_end,
            3,
        ),
    decreases y_end - window_lo(sy),
{
    if y_end <= window_lo(sy) {
        assert(lo * 0 == 0 && hi * 0 == 0) by (nonlinear_arith);
    } else {
        lemma_column_sum_between(v, sx, sy, xx, y_end - 1, c, lo, hi);
        let k = weight_of(v.direction, v.weight, sx, sy, xx, y_end - 1) as int;
        let prev_c = v.column_sum(sx, sy, xx, y_end - 1, c) as int;
        let prev_n = v.column_sum(sx, sy, xx, y_end - 1, 3) as int;
        assert(v.column_sum(sx, sy, xx, y_end, c) == prev_c + v.term(sx, sy, xx, y_end - 1, c));
        assert(v.column_sum(sx, sy, xx, y_end, 3) == prev_n + v.term(sx, sy, xx, y_end - 1, 3));
        if v.is_visited(xx, y_end - 1) && k > 0 {
            let ch = v.layer.color(xx, y_end - 1)[c] as int;
            assert(v.term(sx, sy, xx, y_end - 1, c) == k * ch);
            assert(v.term(sx, sy, xx, y_end - 1, 3) == k) by (nonlinear_arith)
                requires
                    v.term(sx, sy, xx, y_end - 1, 3) == k * 1,
            ;
            assert(lo * (prev_n + k) <= prev_c + k * ch <= hi * (prev_n + k)) by (nonlinear_arith)
                requires
                    lo * prev_n <= prev_c <= hi * prev_n,
                    lo <= ch <= hi,
                    k > 0,
            ;
        } else {
            assert(v.term(sx, sy, xx, y_end - 1, c) == 0 && v.term(sx, sy, xx, y_end - 1, 3) == 0) by {
                if v.is_visited(xx, y_end - 1) {
                    let ch = v.layer.color(xx, y_end - 1)[c] as nat;
                    assert(k * ch == 0 && k * 1 == 0) by (nonlinear_arith)
                        requires
                            k == 0,
                    ;
                }
            }
        }
    }
}

proof fn lemma_window_sum_between(v: DirectionalView, sx: int, sy: int, x_end: int, c: int, lo: int, hi: int)
    requires
        0 <= c < 3,
        forall|xx: int, yy: int|
            window_lo(sx) <= xx < x_end && window_lo(sy) <= yy <= window_hi(sy, v.layer.squares_v as int)
                && v.is_visited(xx, yy) && weight_of(v.direction, v.weight, sx, sy, xx, yy) > 0 ==> lo <= (
            #[trigger] v.layer.color(xx, yy))[c] <= hi,
    ensures
        lo * v.window_sum(sx, sy, x_end, 3) <= v.window_sum(sx, sy, x_end, c) <= hi * v.window_sum(sx, sy, x_end, 3),
    decreases x_end - window_lo(sx),
{
    if x_end <= window_lo(sx) {
        assert(lo * 0 == 0 && hi * 0 == 0) by (nonlinear_arith);
    } else {
        lemma_window_sum_between(v, sx, sy, x_end - 1, c, lo, hi);
        lemma_column_sum_between(
            v,
            sx,
            sy,
            x_end - 1,
            window_hi(sy, v.layer.squares_v as int) + 1,
            c,
            lo,
            hi,
        );
        let a_c = v.window_sum(sx, sy, x_end - 1, c) as int;
        let a_n = v.window_sum(sx, sy, x_end - 1, 3) as int;
        let b_c = v.column_sum(sx, sy, x_end - 1, window_hi(sy, v.layer.squares_v as int) + 1, c) as int;
        let b_n = v.column_sum(sx, sy, x_end - 1, window_hi(sy, v.layer.squares_v as int) + 1, 3) as int;
        assert(lo * (a_n + b_n) <= a_c + b_c <= hi * (a_n + b_n)) by (nonlinear_arith)
            requires
                lo * a_n <= a_c <= hi * a_n,
                lo * b_n <= b_c <= hi * b_n,
        ;
    }
}

/// Weighted averaging stays between its inputs: each channel of the mean lies between
/// the least and the greatest value of that channel among the blocks that count.
pub proof fn lemma_average_between_neighbours(v: DirectionalView, sx: int, sy: int, c: int)
    requires
        0 <= c < 3,
    ensures
        v.average(sx, sy) matches Some(a) ==> {
            &&& exists|xx: int, yy: int| v.counts_in(sx, sy, xx, yy) && (#[trigger] v.layer.color(xx, yy))[c] <= a[c]
            &&& exists|xx: int, yy: int| v.counts_in(sx, sy, xx, yy) && (#[trigger] v.layer.color(xx, yy))[c] >= a[c]
        },
{
    if let Some(a) = v.average(sx, sy) {
        lemma_average_in_range(v, sx, sy);
        let n = v.neighbourhood_sum(sx, sy, 3) as int;
        let t = v.neighbourhood_sum(sx, sy, c) as int;
        let m = a[c] as int;
        assert(m == t / n);
        assert(m * n <= t < (m + 1) * n) by (nonlinear_arith)
            requires
                m == t / n,
                n > 0,
        ;
        let x_end = window_hi(sx, v.layer.squares_h as int) + 1;
        if !exists|xx: int, yy: int| v.counts_in(sx, sy, xx, yy) && (#[trigger] v.layer.color(xx, yy))[c] <= m {
            lemma_window_sum_between(v, sx, sy, x_end, c, m + 1, 255);
            assert(false);
        }
        if !exists|xx: int, yy: int| v.counts_in(sx, sy, xx, yy) && (#[trigger] v.layer.color(xx, yy))[c] >= m {
            lemma_window_sum_between(v, sx, sy, x_end, c, 0, m - 1);
            assert(t <= (m - 1) * n);
            assert(false) by (nonlinear_arith)
                requires
                    t <= (m - 1) * n,
                    m * n <= t,
                    n > 0,
            ;
        }
    }
}

} // verus!
