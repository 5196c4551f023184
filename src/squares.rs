//! Block averaging over distinct colors: the canvas is cut into blocks, and each block
//! in turn takes the mean of the distinct colors among its already-colored neighbours,
//! with one channel nudged at random, painted straight onto the canvas.

use crate::canvas::{Canvas, CanvasView, Color};
use crate::random::{draw_i32_inclusive, draw_u8, draw_usize};
use crate::squares_layer::{block_before, block_count, lemma_block_below, lemma_block_of};
use crate::squares_one_direction::{perturb, perturbed, window_hi, window_lo};
use rand_chacha::ChaCha8Rng;
use vstd::prelude::*;

verus! {

/// The colors of `s` in order of first appearance, each once.
pub open spec fn distinct_colors(s: Seq<Color>) -> Seq<Color>
    decreases s.len(),
{
    if s.len() == 0 {
        Seq::empty()
    } else {
        let d = distinct_colors(s.drop_last());
        if d.contains(s.last()) { d } else { d.push(s.last()) }
    }
}

/// Sum of channel c over the colors of `s`.
pub open spec fn channel_total(s: Seq<Color>, c: int) -> nat
    decreases s.len(),
{
    if s.len() == 0 {
        0
    } else {
        channel_total(s.drop_last(), c) + s.last()[c] as nat
    }
}

/// The mean of the colors of `s`, each channel rounded down; `None` for no color.
pub open spec fn mean_color(s: Seq<Color>) -> Option<Color> {
    if s.len() == 0 {
        None
    } else {
        Some(
            [
                (channel_total(s, 0) / s.len()) as u8,
                (channel_total(s, 1) / s.len()) as u8,
                (channel_total(s, 2) / s.len()) as u8,
            ],
        )
    }
}

/// The state of the algorithm, as mathematics.
pub struct SquaresView {
    pub squaresize_h: nat,
    pub squaresize_v: nat,
    pub squares_h: nat,
    pub squares_v: nat,
    pub variation_amount: u8,
    pub visited: Seq<Seq<bool>>,
}

impl SquaresView {
    /// Positive block size; the visitation grid matches the block counts.
    pub open spec fn wf(self) -> bool {
        &&& self.squaresize_h > 0
        &&& self.squaresize_v > 0
        &&& self.visited.len() == self.squares_h
        &&& forall|x: int| 0 <= x < self.squares_h ==> (#[trigger] self.visited[x]).len() == self.squares_v
    }

    /// The blocks lie within the canvas.
    pub open spec fn fits(self, img: CanvasView) -> bool {
        self.squares_h * self.squaresize_h <= img.width && self.squares_v * self.squaresize_v <= img.height
    }

    pub open spec fn in_grid(self, x: int, y: int) -> bool {
        0 <= x < self.squares_h && 0 <= y < self.squares_v
    }

    pub open spec fn is_visited(self, x: int, y: int) -> bool {
        self.visited[x][y]
    }

    /// The pixel (px, py) lies under a block.
    pub open spec fn in_extent(self, px: int, py: int) -> bool {
        0 <= px < self.squares_h * self.squaresize_h && 0 <= py < self.squares_v * self.squaresize_v
    }

    /// The color of block (x, y): that of its top-left pixel.
    pub open spec fn block_color(self, img: CanvasView, x: int, y: int) -> Color {
        img.pixel(x * self.squaresize_h, y * self.squaresize_v)
    }

    /// The colors of the visited blocks of column xx in the window around sy, below y_end.
    pub open spec fn column_colors(self, img: CanvasView, sy: int, xx: int, y_end: int) -> Seq<Color>
        decreases y_end - window_lo(sy),
    {
        if y_end <= window_lo(sy) {
            Seq::empty()
        } else {
            let prev = self.column_colors(img, sy, xx, y_end - 1);
            if self.is_visited(xx, y_end - 1) {
                prev.push(self.block_color(img, xx, y_end - 1))
            } else {
                prev
            }
        }
    }

    /// The colors of the visited blocks in the window around (sx, sy), in the columns
    /// below x_end, column by column.
    pub open spec fn window_colors(self, img: CanvasView, sx: int, sy: int, x_end: int) -> Seq<Color>
        decreases x_end - window_lo(sx),
    {
        if x_end <= window_lo(sx) {
            Seq::empty()
        } else {
            self.window_colors(img, sx, sy, x_end - 1) + self.column_colors(
                img,
                sy,
                x_end - 1,
                window_hi(sy, self.squares_v as int) + 1,
            )
        }
    }

    /// The mean of the distinct colors of the visited blocks among (sx, sy) and its (up
    /// to) eight neighbours; `None` when none is visited.
    pub open spec fn average(self, img: CanvasView, sx: int, sy: int) -> Option<Color> {
        mean_color(
            distinct_colors(self.window_colors(img, sx, sy, window_hi(sx, self.squares_h as int) + 1)),
        )
    }

    /// Every block has received its color.
    pub open spec fn all_visited(self) -> bool {
        forall|x: int, y: int| self.in_grid(x, y) ==> #[trigger] self.is_visited(x, y)
    }
}

/// Each channel total is at most 255 per color.
pub proof fn lemma_channel_total_bound(s: Seq<Color>, c: int)
    requires
        0 <= c < 3,
    ensures
        channel_total(s, c) <= 255 * s.len(),
    decreases s.len(),
{
    if s.len() > 0 {
        lemma_channel_total_bound(s.drop_last(), c);
    }
}

/// Averaging stays within the channel range: each channel of the mean is the channel
/// total divided by the number of colors, exactly, and at most 255.
pub proof fn lemma_mean_in_range(s: Seq<Color>)
    ensures
        mean_color(s) matches Some(a) ==> forall|c: int|
            0 <= c < 3 ==> {
                &&& (channel_total(s, c) / s.len()) as int <= 255
                &&& #[trigger] a[c] as int == (channel_total(s, c) / s.len()) as int
            },
{
    if s.len() > 0 {
        assert forall|c: int| 0 <= c < 3 implies (channel_total(s, c) / s.len()) as int <= 255 by {
            lemma_channel_total_bound(s, c);
            let t = channel_total(s, c);
            let n = s.len();
            assert(t / n <= 255) by (nonlinear_arith)
                requires
                    t <= 255 * n,
                    n > 0,
            ;
        }
    }
}

/// Block averaging over distinct neighbour colors, painted straight onto the canvas.
pub struct Squares {
    squaresize_h: usize,
    squaresize_v: usize,
    squares_h: usize,
    squares_v: usize,
    variation_amount: u8,
    visited_squares: Vec<Vec<bool>>,
}

impl View for Squares {
    type V = SquaresView;

    closed spec fn view(&self) -> SquaresView {
        SquaresView {
            squaresize_h: self.squaresize_h as nat,
            squaresize_v: self.squaresize_v as nat,
            squares_h: self.squares_h as nat,
            squares_v: self.squares_v as nat,
            variation_amount: self.variation_amount,
            visited: self.visited_squares@.map_values(|col: Vec<bool>| col@),
        }
    }
}

impl Default for Squares {
    fn default() -> (s: Squares)
        ensures
            s@.wf(),
            s@.squaresize_h == 10,
            s@.squaresize_v == 10,
            s@.squares_h == 0,
            s@.squares_v == 0,
            s@.variation_amount == 20,
    {
        let s = Squares {
            squaresize_v: 10,
            squares_h: 0,
            squaresize_h: 10,
            squares_v: 0,
            variation_amount: 20,
            visited_squares: Vec::new(),
        };
        proof {
            assert(s@.visited =~= Seq::<Seq<bool>>::empty());
        }
        s
    }
}

/// Whether `v` holds the color `c`.
fn contains_color(v: &Vec<Color>, c: Color) -> (r: bool)
    ensures
        r == v@.contains(c),
{
    let mut i: usize = 0;
    while i < v.len()
        invariant
            i <= v@.len(),
            forall|j: int| 0 <= j < i ==> v@[j] != c,
        decreases v@.len() - i,
    {
        let d: Color = v[i];
        if d[0] == c[0] && d[1] == c[1] && d[2] == c[2] {
            proof {
                assert(v@[i as int] =~= c);
            }
            return true;
        }
        i = i + 1;
    }
    false
}

/// The mean of the given colors, each channel rounded down; `None` for no color.
fn mean_of(colors: &Vec<Color>) -> (r: Option<Color>)
    ensures
        r == mean_color(colors@),
{
    let n: usize = colors.len();
    if n == 0 {
        return None;
    }
    let mut red: u128 = 0;
    let mut green: u128 = 0;
    let mut blue: u128 = 0;
    for i in 0..n
        invariant
            n == colors@.len(),
            red == channel_total(colors@.subrange(0, i as int), 0),
            green == channel_total(colors@.subrange(0, i as int), 1),
            blue == channel_total(colors@.subrange(0, i as int), 2),
            red <= 255 * i,
            green <= 255 * i,
            blue <= 255 * i,
    {
        proof {
            assert(colors@.subrange(0, i + 1).drop_last() =~= colors@.subrange(0, i as int));
        }
        let c: Color = colors[i];
        red = red + c[0] as u128;
        green = green + c[1] as u128;
        blue = blue + c[2] as u128;
    }
    proof {
        assert(colors@.subrange(0, n as int) =~= colors@);
        lemma_mean_in_range(colors@);
    }
    Some([(red / n as u128) as u8, (green / n as u128) as u8, (blue / n as u128) as u8])
}

impl Squares {
    /// The color of the block (x, y), read from the canvas, if it has been visited.
    fn get_square_color(&self, square_x: usize, square_y: usize, img: &Canvas) -> (r: Option<Color>)
        requires
            self@.wf(),
            self@.fits(img@),
            self@.in_grid(square_x as int, square_y as int),
        ensures
            r == if self@.is_visited(square_x as int, square_y as int) {
                Some(self@.block_color(img@, square_x as int, square_y as int))
            } else {
                None
            },
    {
        proof {
            assert(self@.visited[square_x as int] == self.visited_squares@[square_x as int]@);
        }
        if self.visited_squares[square_x][square_y] {
            let _w: u32 = img.width();
            let _h: u32 = img.height();
            proof {
                assert(square_x * self.squaresize_h < self.squares_h * self.squaresize_h) by (nonlinear_arith)
                    requires
                        square_x < self.squares_h,
                        self.squaresize_h > 0,
                ;
                assert(square_y * self.squaresize_v < self.squares_v * self.squaresize_v) by (nonlinear_arith)
                    requires
                        square_y < self.squares_v,
                        self.squaresize_v > 0,
                ;
            }
            let x: u32 = (square_x * self.squaresize_h) as u32;
            let y: u32 = (square_y * self.squaresize_v) as u32;
            Some(img.get_pixel(x, y))
        } else {
            None
        }
    }

    /// The mean of the distinct colors of the visited blocks among the block (x, y) and
    /// its (up to) eight neighbours; `None` when none is visited.
    pub fn get_average_color_of_squares(&self, square_x: usize, square_y: usize, img: &Canvas) -> (r: Option<
        Color,
    >)
        requires
            self@.wf(),
            self@.fits(img@),
            self@.in_grid(square_x as int, square_y as int),
        ensures
            r == self@.average(img@, square_x as int, square_y as int),
    {
        let ghost v = self@;
        let ghost sx = square_x as int;
        let ghost sy = square_y as int;
        let h: usize = self.squares_h;
        let w: usize = self.squares_v;
        let x_lo: usize = if square_x >= 1 { square_x - 1 } else { 0 };
        let x_hi: usize = if square_x + 1 <= h - 1 { square_x + 1 } else { h - 1 };
        let y_lo: usize = if square_y >= 1 { square_y - 1 } else { 0 };
        let y_hi: usize = if square_y + 1 <= w - 1 { square_y + 1 } else { w - 1 };
        let mut distinct: Vec<Color> = Vec::new();
        let mut xx: usize = x_lo;
        while xx <= x_hi
            invariant
                v == self@,
                v.wf(),
                v.fits(img@),
                v.in_grid(sx, sy),
                sx == square_x,
                sy == square_y,
                h == v.squares_h,
                w == v.squares_v,
                x_lo == window_lo(sx),
                x_hi == window_hi(sx, h as int),
                y_lo == window_lo(sy),
                y_hi == window_hi(sy, w as int),
                x_lo <= xx <= x_hi + 1,
                x_hi < h,
                y_lo <= y_hi < w,
                distinct@ == distinct_colors(v.window_colors(img@, sx, sy, xx as int)),
            decreases x_hi + 1 - xx,
        {
            let mut yy: usize = y_lo;
            while yy <= y_hi
                invariant
                    v == self@,
                    v.wf(),
                    v.fits(img@),
                    v.in_grid(sx, sy),
                    sx == square_x,
                    sy == square_y,
                    h == v.squares_h,
                    w == v.squares_v,
                    x_lo == window_lo(sx),
                    y_lo == window_lo(sy),
                    y_hi == window_hi(sy, w as int),
                    x_lo <= xx <= x_hi,
                    x_hi < h,
                    y_lo <= yy <= y_hi + 1,
                    y_hi < w,
                    distinct@ == distinct_colors(
                        v.window_colors(img@, sx, sy, xx as int) + v.column_colors(img@, sy, xx as int, yy as int),
                    ),
                decreases y_hi + 1 - yy,
            {
                let ghost before = v.window_colors(img@, sx, sy, xx as int) + v.column_colors(
                    img@,
                    sy,
                    xx as int,
                    yy as int,
                );
                if let Some(color) = self.get_square_color(xx, yy, img) {
                    proof {
                        assert(v.window_colors(img@, sx, sy, xx as int) + v.column_colors(
                            img@,
                            sy,
                            xx as int,
                            yy + 1,
                        ) =~= before.push(color));
                        assert(before.push(color).drop_last() =~= before);
                    }
                    if !contains_color(&distinct, color) {
                        distinct.push(color);
                    }
                } else {
                    proof {
                        assert(v.window_colors(img@, sx, sy, xx as int) + v.column_colors(
                            img@,
                            sy,
                            xx as int,
                            yy + 1,
                        ) =~= before);
                    }
                }
                yy = yy + 1;
            }
            xx = xx + 1;
        }
        mean_of(&distinct)
    }
}

impl SquaresView {
    /// The pixel (px, py) lies in block (x, y).
    pub open spec fn in_block(self, px: int, py: int, x: int, y: int) -> bool {
        x * self.squaresize_h <= px < (x + 1) * self.squaresize_h && y * self.squaresize_v <= py < (y + 1)
            * self.squaresize_v
    }

    /// The block (x, y) marked visited; nothing else changed.
    pub open spec fn with_visited(self, x: int, y: int) -> SquaresView {
        SquaresView { visited: self.visited.update(x, self.visited[x].update(y, true)), ..self }
    }

    /// A color that the sweep may give the block (x, y) over the canvas `img`: the mean of
    /// the distinct neighbour colors with one channel moved by at most the variation
    /// amount, or, with no visited neighbour, any color whose channels lie below 255.
    pub open spec fn allowed_color(self, img: CanvasView, x: int, y: int, c: Color) -> bool {
        match self.average(img, x, y) {
            Some(a) => exists|channel: int, offset: int|
                0 <= channel < 3 && -(self.variation_amount as int) <= offset <= self.variation_amount
                    && c == #[trigger] perturb(a, channel, offset),
            None => c[0] < 255 && c[1] < 255 && c[2] < 255,
        }
    }
}

impl Squares {
    /// Paints the block (x, y) in `color` and marks it visited.
    fn color_square(&mut self, square_x: usize, square_y: usize, img: &mut Canvas, color: Color)
        requires
            old(self)@.wf(),
            old(self)@.fits(old(img)@),
            old(self)@.in_grid(square_x as int, square_y as int),
        ensures
            final(self)@ == old(self)@.with_visited(square_x as int, square_y as int),
            final(img)@.width == old(img)@.width,
            final(img)@.height == old(img)@.height,
            final(img)@.wf(),
            forall|px: int, py: int|
                old(img)@.in_bounds(px, py) ==> #[trigger] final(img)@.pixel(px, py) == if old(self)@.in_block(
                    px,
                    py,
                    square_x as int,
                    square_y as int,
                ) {
                    color
                } else {
                    old(img)@.pixel(px, py)
                },
    {
        let _w: u32 = img.width();
        let _h: u32 = img.height();
        proof {
            assert((square_x + 1) * self.squaresize_h <= self.squares_h * self.squaresize_h) by (nonlinear_arith)
                requires
                    square_x < self.squares_h,
            ;
            assert((square_y + 1) * self.squaresize_v <= self.squares_v * self.squaresize_v) by (nonlinear_arith)
                requires
                    square_y < self.squares_v,
            ;
            assert(square_x * self.squaresize_h + self.squaresize_h == (square_x + 1) * self.squaresize_h)
                by (nonlinear_arith);
            assert(square_y * self.squaresize_v + self.squaresize_v == (square_y + 1) * self.squaresize_v)
                by (nonlinear_arith);
        }
        let x_start: usize = square_x * self.squaresize_h;
        let y_start: usize = square_y * self.squaresize_v;
        img.fill_rect(
            x_start as u32,
            y_start as u32,
            (x_start + self.squaresize_h) as u32,
            (y_start + self.squaresize_v) as u32,
            color,
        );
        let mut col: Vec<bool> = Vec::new();
        core::mem::swap(&mut col, &mut self.visited_squares[square_x]);
        proof {
            assert(col@ == old(self)@.visited[square_x as int]);
        }
        col.set(square_y, true);
        core::mem::swap(&mut col, &mut self.visited_squares[square_x]);
        proof {
            assert(self@.visited =~= old(self)@.with_visited(square_x as int, square_y as int).visited);
        }
    }

    /// Gives the block (x, y) its color: the mean of the distinct colors of its visited
    /// neighbours with one random channel moved by a random amount within the variation,
    /// or a random color when no neighbour is visited. Paints it and marks it visited.
    pub fn color_square_average(&mut self, rng: &mut ChaCha8Rng, square_x: usize, square_y: usize, img: &mut Canvas)
        requires
            old(self)@.wf(),
            old(self)@.fits(old(img)@),
            old(self)@.in_grid(square_x as int, square_y as int),
        ensures
            final(self)@ == old(self)@.with_visited(square_x as int, square_y as int),
            final(img)@.width == old(img)@.width,
            final(img)@.height == old(img)@.height,
            final(img)@.wf(),
            old(self)@.allowed_color(
                old(img)@,
                square_x as int,
                square_y as int,
                final(self)@.block_color(final(img)@, square_x as int, square_y as int),
            ),
            forall|px: int, py: int|
                old(img)@.in_bounds(px, py) ==> #[trigger] final(img)@.pixel(px, py) == if old(self)@.in_block(
                    px,
                    py,
                    square_x as int,
                    square_y as int,
                ) {
                    final(self)@.block_color(final(img)@, square_x as int, square_y as int)
                } else {
                    old(img)@.pixel(px, py)
                },
    {
        let c: Color = match self.get_average_color_of_squares(square_x, square_y, img) {
            Some(average_color) => {
                let variation: i32 = self.variation_amount as i32;
                let color_offset: i32 = draw_i32_inclusive(rng, -variation, variation);
                let channel_id: usize = draw_usize(rng, 0, 3);
                let c = perturbed(average_color, channel_id, color_offset);
                proof {
                    assert(c == perturb(average_color, channel_id as int, color_offset as int));
                }
                c
            },
            None => [draw_u8(rng, 0, 255), draw_u8(rng, 0, 255), draw_u8(rng, 0, 255)],
        };
        let ghost sh = self.squaresize_h as int;
        let ghost sv = self.squaresize_v as int;
        self.color_square(square_x, square_y, img, c);
        proof {
            let cx = square_x * sh;
            let cy = square_y * sv;
            assert(cx + sh == (square_x + 1) * sh) by (nonlinear_arith)
                requires
                    cx == square_x * sh,
            ;
            assert(cy + sv == (square_y + 1) * sv) by (nonlinear_arith)
                requires
                    cy == square_y * sv,
            ;
            assert((square_x + 1) * sh <= self@.squares_h * sh) by (nonlinear_arith)
                requires
                    square_x < self@.squares_h,
                    sh > 0,
            ;
            assert((square_y + 1) * sv <= self@.squares_v * sv) by (nonlinear_arith)
                requires
                    square_y < self@.squares_v,
                    sv > 0,
            ;
            assert(old(img)@.in_bounds(cx, cy));
            assert(old(self)@.in_block(cx, cy, square_x as int, square_y as int));
            assert(self@.block_color(img@, square_x as int, square_y as int) == c);
        }
    }
}

impl SquaresView {
    /// The top-left pixel of the block that holds (px, py).
    pub open spec fn corner_of(self, px: int, py: int) -> (int, int) {
        ((px / self.squaresize_h as int) * self.squaresize_h, (py / self.squaresize_v as int) * self.squaresize_v)
    }

    /// Every pixel under a block of `done` (or under any block, when `done` is `None`)
    /// has the color of its block's top-left pixel; every other pixel is as in `before`.
    pub open spec fn painted_upto(self, before: CanvasView, after: CanvasView, x: int, y: int) -> bool {
        &&& after.width == before.width
        &&& after.height == before.height
        &&& after.wf()
        &&& forall|px: int, py: int|
            before.in_bounds(px, py) ==> #[trigger] after.pixel(px, py) == if self.in_extent(px, py) && block_before(
                px / self.squaresize_h as int,
                py / self.squaresize_v as int,
                x,
                y,
            ) {
                after.pixel(self.corner_of(px, py).0, self.corner_of(px, py).1)
            } else {
                before.pixel(px, py)
            }
    }

    /// Every pixel under the blocks has the color of its block's top-left pixel; every
    /// other pixel is as in `before`.
    pub open spec fn painted(self, before: CanvasView, after: CanvasView) -> bool {
        &&& after.width == before.width
        &&& after.height == before.height
        &&& after.wf()
        &&& forall|px: int, py: int|
            before.in_bounds(px, py) ==> #[trigger] after.pixel(px, py) == if self.in_extent(px, py) {
                after.pixel(self.corner_of(px, py).0, self.corner_of(px, py).1)
            } else {
                before.pixel(px, py)
            }
    }
}

/// The top-left pixel of a block lies in that block.
proof fn lemma_corner_in_block(b: int, size: int)
    requires
        0 <= b,
        0 < size,
    ensures
        (b * size) / size == b,
        0 <= b * size,
{
    assert(0 <= b * size) by (nonlinear_arith)
        requires
            0 <= b,
            0 < size,
    ;
    assert(b * size < (b + 1) * size) by (nonlinear_arith)
        requires
            0 < size,
    ;
    lemma_block_of(b * size, size, b);
}

/// The top-left pixel of another block lies on the canvas, outside the block (x, y).
proof fn lemma_corner_outside(v: SquaresView, img: CanvasView, bx: int, by: int, x: int, y: int)
    requires
        v.wf(),
        v.fits(img),
        v.in_grid(bx, by),
        bx != x || by != y,
    ensures
        img.in_bounds(bx * v.squaresize_h, by * v.squaresize_v),
        !v.in_block(bx * v.squaresize_h, by * v.squaresize_v, x, y),
{
    let sh = v.squaresize_h as int;
    let sv = v.squaresize_v as int;
    lemma_corner_in_block(bx, sh);
    lemma_corner_in_block(by, sv);
    assert(bx * sh < v.squares_h * sh) by (nonlinear_arith)
        requires
            bx < v.squares_h,
            sh > 0,
    ;
    assert(by * sv < v.squares_v * sv) by (nonlinear_arith)
        requires
            by < v.squares_v,
            sv > 0,
    ;
    lemma_block_of(bx * sh, sh, x);
    lemma_block_of(by * sv, sv, y);
}

impl Squares {
    /// Runs the algorithm: cuts the canvas into whole blocks (at least one each way),
    /// then colors every block in column-major order, painting it onto the canvas. Fails,
    /// leaving the canvas untouched, when the blocks reach past the canvas.
    pub fn build(&mut self, rng: &mut ChaCha8Rng, img: &mut Canvas) -> (r: Result<(), String>)
        requires
            old(self)@.wf(),
        ensures
            final(self)@.wf(),
            final(self)@.squares_h == block_count(old(img)@.width, old(self)@.squaresize_h),
            final(self)@.squares_v == block_count(old(img)@.height, old(self)@.squaresize_v),
            r.is_ok() <==> final(self)@.fits(old(img)@),
            r.is_err() ==> final(img)@ == old(img)@,
            r.is_ok() ==> final(self)@.all_visited() && final(self)@.painted(old(img)@, final(img)@),
            r.is_ok() ==> final(self)@.sweep_consistent(final(img)@),
    {
        let width: u32 = img.width();
        let height: u32 = img.height();
        let sv: usize = self.squaresize_v;
        let sh: usize = self.squaresize_h;
        self.squares_v = if height as usize / sv >= 1 { height as usize / sv } else { 1 };
        self.squares_h = if width as usize / sh >= 1 { width as usize / sh } else { 1 };
        let mut visited: Vec<Vec<bool>> = Vec::new();
        for x in 0..self.squares_h
            invariant
                visited@.len() == x,
                forall|i: int| 0 <= i < x ==> (#[trigger] visited@[i])@.len() == self.squares_v,
                forall|i: int, j: int| 0 <= i < x && 0 <= j < self.squares_v ==> !#[trigger] visited@[i]@[j],
        {
            let mut col: Vec<bool> = Vec::new();
            for y in 0..self.squares_v
                invariant
                    col@.len() == y,
                    forall|j: int| 0 <= j < y ==> !#[trigger] col@[j],
            {
                col.push(false);
            }
            visited.push(col);
        }
        self.visited_squares = visited;
        let fits_h: bool = match self.squares_h.checked_mul(sh) {
            Some(v) => v <= width as usize,
            None => false,
        };
        let fits_v: bool = match self.squares_v.checked_mul(sv) {
            Some(v) => v <= height as usize,
            None => false,
        };
        if !fits_h || !fits_v {
            return Err("the image is smaller than one block".to_owned());
        }
        let ghost before = img@;
        let ghost shi = sh as int;
        let ghost svi = sv as int;
        proof {
            assert forall|px: int, py: int| before.in_bounds(px, py) && self@.in_extent(px, py) implies px / shi >= 0 by {
                lemma_block_below(px, shi, self@.squares_h as int);
            }
        }
        let h: usize = self.squares_h;
        let v: usize = self.squares_v;
        for x in 0..h
            invariant
                self@.wf(),
                self@.fits(before),
                h == self@.squares_h,
                v == self@.squares_v,
                shi == self@.squaresize_h,
                svi == self@.squaresize_v,
                self@.squares_h == block_count(before.width, old(self)@.squaresize_h),
                self@.squares_v == block_count(before.height, old(self)@.squaresize_v),
                self@.squaresize_h == old(self)@.squaresize_h,
                self@.squaresize_v == old(self)@.squaresize_v,
                forall|bx: int, by: int| self@.in_grid(bx, by) && bx < x ==> #[trigger] self@.is_visited(bx, by),
                self@.painted_upto(before, img@, x as int, 0),
                forall|bx: int, by: int|
                    self@.in_grid(bx, by) ==> #[trigger] self@.is_visited(bx, by) == block_before(bx, by, x as int, 0),
                forall|bx: int, by: int|
                    self@.in_grid(bx, by) && block_before(bx, by, x as int, 0) ==> #[trigger] self@.swept_before(
                        bx,
                        by,
                    ).allowed_color(img@, bx, by, self@.block_color(img@, bx, by)),
        {
            proof {
                assert forall|px: int, py: int| before.in_bounds(px, py) && self@.in_extent(px, py) implies py / svi
                    >= 0 by {
                    lemma_block_below(py, svi, self@.squares_v as int);
                }
            }
            for y in 0..v
                invariant
                    self@.wf(),
                    self@.fits(before),
                    x < h,
                    h == self@.squares_h,
                    v == self@.squares_v,
                    shi == self@.squaresize_h,
                    svi == self@.squaresize_v,
                    self@.squares_h == block_count(before.width, old(self)@.squaresize_h),
                    self@.squares_v == block_count(before.height, old(self)@.squaresize_v),
                    self@.squaresize_h == old(self)@.squaresize_h,
                    self@.squaresize_v == old(self)@.squaresize_v,
                    forall|bx: int, by: int|
                        self@.in_grid(bx, by) && block_before(bx, by, x as int, y as int) ==> #[trigger] self@.is_visited(
                            bx,
                            by,
                        ),
                    self@.painted_upto(before, img@, x as int, y as int),
                    forall|bx: int, by: int|
                        self@.in_grid(bx, by) ==> #[trigger] self@.is_visited(bx, by) == block_before(
                            bx,
                            by,
                            x as int,
                            y as int,
                        ),
                    forall|bx: int, by: int|
                        self@.in_grid(bx, by) && block_before(bx, by, x as int, y as int) ==> #[trigger] self@.swept_before(
                            bx,
                            by,
                        ).allowed_color(img@, bx, by, self@.block_color(img@, bx, by)),
            {
                let ghost prev = self@;
                let ghost mid = img@;
                self.color_square_average(rng, x, y, img);
                proof {
                    assert forall|bx: int, by: int| self@.in_grid(bx, by) && (bx != x || by != y) implies #[trigger] self@.block_color(
                        img@,
                        bx,
                        by,
                    ) == prev.block_color(mid, bx, by) by {
                        lemma_corner_outside(prev, mid, bx, by, x as int, y as int);
                    }
                    assert forall|bx: int, by: int| self@.in_grid(bx, by) implies #[trigger] self@.is_visited(bx, by)
                        == block_before(bx, by, x as int, y + 1) by {
                        if bx != x || by != y {
                            assert(self@.is_visited(bx, by) == prev.is_visited(bx, by));
                        }
                    }
                    assert forall|bx: int, by: int|
                        self@.in_grid(bx, by) && block_before(bx, by, x as int, y + 1) implies #[trigger] self@.swept_before(
                        bx,
                        by,
                    ).allowed_color(img@, bx, by, self@.block_color(img@, bx, by)) by {
                        let now = self@.swept_before(bx, by);
                        if bx == x && by == y {
                            assert forall|qx: int, qy: int| prev.in_grid(qx, qy) implies #[trigger] prev.is_visited(qx, qy)
                                == now.is_visited(qx, qy) by {
                                assert(prev.is_visited(qx, qy) == block_before(qx, qy, x as int, y as int));
                            }
                            assert forall|qx: int, qy: int| prev.in_grid(qx, qy) && prev.is_visited(qx, qy) implies #[trigger] prev.block_color(
                                mid,
                                qx,
                                qy,
                            ) == now.block_color(img@, qx, qy) by {
                                assert(block_before(qx, qy, x as int, y as int));
                                lemma_corner_outside(prev, mid, qx, qy, x as int, y as int);
                            }
                            assert(prev.same_reading(mid, now, img@));
                            lemma_average_reads_visited(prev, mid, now, img@, bx, by);
                        } else {
                            let then = prev.swept_before(bx, by);
                            assert(then.allowed_color(mid, bx, by, prev.block_color(mid, bx, by)));
                            assert forall|qx: int, qy: int| then.in_grid(qx, qy) implies #[trigger] then.is_visited(qx, qy)
                                == now.is_visited(qx, qy) by {}
                            assert forall|qx: int, qy: int| then.in_grid(qx, qy) && then.is_visited(qx, qy) implies #[trigger] then.block_color(
                                mid,
                                qx,
                                qy,
                            ) == now.block_color(img@, qx, qy) by {
                                assert(block_before(qx, qy, bx, by));
                                lemma_corner_outside(prev, mid, qx, qy, x as int, y as int);
                            }
                            assert(then.same_reading(mid, now, img@));
                            lemma_average_reads_visited(then, mid, now, img@, bx, by);
                        }
                    }
                    assert forall|bx: int, by: int|
                        self@.in_grid(bx, by) && block_before(bx, by, x as int, y + 1) implies #[trigger] self@.is_visited(
                        bx,
                        by,
                    ) by {
                        if bx != x || by != y {
                            assert(prev.is_visited(bx, by));
                        }
                    }
                    assert forall|px: int, py: int| before.in_bounds(px, py) implies #[trigger] img@.pixel(px, py) == if self@.in_extent(
                        px,
                        py,
                    ) && block_before(px / shi, py / svi, x as int, y + 1) {
                        img@.pixel(self@.corner_of(px, py).0, self@.corner_of(px, py).1)
                    } else {
                        before.pixel(px, py)
                    } by {
                        let c = img@.pixel(x * shi, y * svi);
                        assert(img@.pixel(px, py) == if prev.in_block(px, py, x as int, y as int) {
                            c
                        } else {
                            mid.pixel(px, py)
                        });
                        if self@.in_extent(px, py) {
                            lemma_block_of(px, shi, x as int);
                            lemma_block_of(py, svi, y as int);
                            let bx = px / shi;
                            let by = py / svi;
                            lemma_block_below(px, shi, self@.squares_h as int);
                            lemma_block_below(py, svi, self@.squares_v as int);
                            lemma_corner_in_block(bx, shi);
                            lemma_corner_in_block(by, svi);
                            let cx = bx * shi;
                            let cy = by * svi;
                            assert(self@.corner_of(px, py) == (cx, cy));
                            assert(cx <= px && cy <= py) by {
                                vstd::arithmetic::div_mod::lemma_fundamental_div_mod(px, shi);
                                vstd::arithmetic::div_mod::lemma_fundamental_div_mod(py, svi);
                                vstd::arithmetic::div_mod::lemma_mod_pos_bound(px, shi);
                                vstd::arithmetic::div_mod::lemma_mod_pos_bound(py, svi);
                                assert(shi * bx == bx * shi) by (nonlinear_arith);
                                assert(svi * by == by * svi) by (nonlinear_arith);
                            }
                            assert(before.in_bounds(cx, cy));
                            lemma_block_of(cx, shi, x as int);
                            lemma_block_of(cy, svi, y as int);
                            assert(img@.pixel(cx, cy) == if prev.in_block(cx, cy, x as int, y as int) {
                                c
                            } else {
                                mid.pixel(cx, cy)
                            });
                            if bx == x && by == y {
                                assert(prev.in_block(px, py, x as int, y as int));
                                assert(prev.in_block(cx, cy, x as int, y as int));
                            } else {
                                assert(!prev.in_block(px, py, x as int, y as int));
                                assert(!prev.in_block(cx, cy, x as int, y as int));
                                assert(mid.pixel(px, py) == if block_before(bx, by, x as int, y as int) {
                                    mid.pixel(cx, cy)
                                } else {
                                    before.pixel(px, py)
                                });
                            }
                        } else {
                            assert((x + 1) * shi <= self@.squares_h * shi) by (nonlinear_arith)
                                requires
                                    x < self@.squares_h,
                                    shi > 0,
                            ;
                            assert((y + 1) * svi <= self@.squares_v * svi) by (nonlinear_arith)
                                requires
                                    y < self@.squares_v,
                                    svi > 0,
                            ;
                            assert(!prev.in_block(px, py, x as int, y as int));
                            assert(mid.pixel(px, py) == before.pixel(px, py));
                        }
                    }
                }
            }
            proof {
                assert forall|px: int, py: int| before.in_bounds(px, py) implies #[trigger] img@.pixel(px, py) == if self@.in_extent(
                    px,
                    py,
                ) && block_before(px / shi, py / svi, x + 1, 0) {
                    img@.pixel(self@.corner_of(px, py).0, self@.corner_of(px, py).1)
                } else {
                    before.pixel(px, py)
                } by {
                    if self@.in_extent(px, py) {
                        lemma_block_below(py, svi, self@.squares_v as int);
                        lemma_block_below(px, shi, self@.squares_h as int);
                    }
                }
            }
        }
        proof {
            assert forall|px: int, py: int| before.in_bounds(px, py) implies #[trigger] img@.pixel(px, py) == if self@.in_extent(
                px,
                py,
            ) {
                img@.pixel(self@.corner_of(px, py).0, self@.corner_of(px, py).1)
            } else {
                before.pixel(px, py)
            } by {
                if self@.in_extent(px, py) {
                    lemma_block_below(px, shi, self@.squares_h as int);
                }
            }
            assert forall|bx: int, by: int| self@.in_grid(bx, by) implies #[trigger] self@.swept_before(bx, by).allowed_color(
                img@,
                bx,
                by,
                self@.block_color(img@, bx, by),
            ) by {
                assert(block_before(bx, by, h as int, 0));
            }
        }
        Ok(())
    }
}

impl SquaresView {
    /// This state with exactly the blocks before (x, y) in column-major order marked visited.
    pub open spec fn swept_before(self, x: int, y: int) -> SquaresView {
        SquaresView {
            visited: Seq::new(self.squares_h, |bx: int| Seq::new(self.squares_v, |by: int| block_before(bx, by, x, y))),
            ..self
        }
    }

    /// Every block of the canvas `img` holds a color that the sweep may give it when the
    /// blocks before it hold their present colors and no other block is visited.
    pub open spec fn sweep_consistent(self, img: CanvasView) -> bool {
        forall|x: int, y: int|
            self.in_grid(x, y) ==> #[trigger] self.swept_before(x, y).allowed_color(
                img,
                x,
                y,
                self.block_color(img, x, y),
            )
    }

    /// Two states over two canvases agree on what an average reads: the same blocks and
    /// visited blocks, and the same color on every visited block.
    pub open spec fn same_reading(self, img: CanvasView, other: SquaresView, img2: CanvasView) -> bool {
        &&& self.squares_h == other.squares_h
        &&& self.squares_v == other.squares_v
        &&& self.squaresize_h == other.squaresize_h
        &&& self.squaresize_v == other.squaresize_v
        &&& forall|x: int, y: int| self.in_grid(x, y) ==> #[trigger] self.is_visited(x, y) == other.is_visited(x, y)
        &&& forall|x: int, y: int|
            self.in_grid(x, y) && self.is_visited(x, y) ==> #[trigger] self.block_color(img, x, y) == other.block_color(
                img2,
                x,
                y,
            )
    }
}

proof fn lemma_column_colors_read_visited(
    a: SquaresView,
    img: CanvasView,
    b: SquaresView,
    img2: CanvasView,
    sy: int,
    xx: int,
    y_end: int,
)
    requires
        a.same_reading(img, b, img2),
        0 <= xx < a.squares_h,
        y_end <= a.squares_v,
    ensures
        a.column_colors(img, sy, xx, y_end) == b.column_colors(img2, sy, xx, y_end),
    decreases y_end - window_lo(sy),
{
    if y_end > window_lo(sy) {
        lemma_column_colors_read_visited(a, img, b, img2, sy, xx, y_end - 1);
        assert(a.in_grid(xx, y_end - 1));
    }
}

proof fn lemma_window_colors_read_visited(
    a: SquaresView,
    img: CanvasView,
    b: SquaresView,
    img2: CanvasView,
    sx: int,
    sy: int,
    x_end: int,
)
    requires
        a.same_reading(img, b, img2),
        x_end <= a.squares_h,
    ensures
        a.window_colors(img, sx, sy, x_end) == b.window_colors(img2, sx, sy, x_end),
    decreases x_end - window_lo(sx),
{
    if x_end > window_lo(sx) {
        lemma_window_colors_read_visited(a, img, b, img2, sx, sy, x_end - 1);
        lemma_column_colors_read_visited(a, img, b, img2, sy, x_end - 1, window_hi(sy, a.squares_v as int) + 1);
    }
}

/// An average reads only the visited blocks and their colors.
pub proof fn lemma_average_reads_visited(a: SquaresView, img: CanvasView, b: SquaresView, img2: CanvasView, sx: int, sy: int)
    requires
        a.same_reading(img, b, img2),
        a.in_grid(sx, sy),
    ensures
        a.average(img, sx, sy) == b.average(img2, sx, sy),
{
    lemma_window_colors_read_visited(a, img, b, img2, sx, sy, window_hi(sx, a.squares_h as int) + 1);
}

} // verus!
