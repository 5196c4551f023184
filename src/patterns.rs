//! Tiled patterns: a small grid of pattern colors repeated over the canvas.

use crate::canvas::{lemma_index_in_range, Canvas, CanvasView, Color};
use crate::random::draw_u8_inclusive;
use vstd::arithmetic::div_mod::lemma_fundamental_div_mod_converse;
use rand_chacha::ChaCha8Rng;
use vstd::prelude::*;

verus! {

/// A color value used in pattern definitions.
#[derive(Clone, Copy, Debug)]
pub enum PatternColor {
    /// A simple solid color.
    Solid { color: Color },
    /// A solid color with an alpha channel in [0, 255].
    Alpha { color: Color, alpha: u8 },
    /// A solid color blended with a noise field.
    Perlin { blendcolor: Color },
    /// No color at all: the pixel is left as it is.
    Skip,
    /// A random color, each channel between the two bounds.
    Random { minvalue: Color, maxvalue: Color },
}

/// The pattern colors a canvas can be painted with: solid, skipped, or random with
/// each lower bound at most its upper bound.
pub open spec fn is_paintable(c: PatternColor) -> bool {
    match c {
        PatternColor::Solid { .. } => true,
        PatternColor::Skip => true,
        PatternColor::Random { minvalue, maxvalue } => minvalue[0] <= maxvalue[0] && minvalue[1] <= maxvalue[1]
            && minvalue[2] <= maxvalue[2],
        _ => false,
    }
}

/// What painting the pattern color `c` may leave in a pixel that held `old`.
pub open spec fn painted_as(c: PatternColor, old: Color, new: Color) -> bool {
    match c {
        PatternColor::Solid { color } => new == color,
        PatternColor::Skip => new == old,
        PatternColor::Random { minvalue, maxvalue } => minvalue[0] <= new[0] <= maxvalue[0] && minvalue[1] <= new[1]
            <= maxvalue[1] && minvalue[2] <= new[2] <= maxvalue[2],
        _ => false,
    }
}

/// Position of the entry (h, w) in a row-by-row listing of rows of `width` entries.
pub open spec fn row_major(h: int, w: int, width: int) -> int {
    h * width + w
}

/// Entries of the first `rows` rows come before position `rows * width`.
pub proof fn lemma_row_major_bound(h: int, w: int, width: int, rows: int)
    requires
        0 <= h < rows,
        0 <= w < width,
    ensures
        0 <= row_major(h, w, width) < rows * width,
{
    assert(0 <= h * width + w < rows * width) by (nonlinear_arith)
        requires
            0 <= h < rows,
            0 <= w < width,
    ;
}

/// A simple pattern to be drawn onto an image: `data[x][y]` for `x` below `height`
/// and `y` below `width`.
pub struct Pattern {
    data: Vec<Vec<PatternColor>>,
    width: usize,
    height: usize,
}

/// A pattern as mathematics.
pub struct PatternView {
    pub data: Seq<Seq<PatternColor>>,
    pub width: nat,
    pub height: nat,
}

impl PatternView {
    /// `height` rows of `width` entries.
    pub open spec fn wf(self) -> bool {
        &&& self.data.len() == self.height
        &&& forall|x: int| 0 <= x < self.height ==> (#[trigger] self.data[x]).len() == self.width
    }

    /// The pattern color that falls on the canvas pixel (x, y) when the pattern is
    /// repeated over the canvas.
    pub open spec fn tile_at(self, x: int, y: int) -> PatternColor {
        self.data[x % (self.height as int)][y % (self.width as int)]
    }
}

impl View for Pattern {
    type V = PatternView;

    closed spec fn view(&self) -> PatternView {
        PatternView {
            data: self.data@.map_values(|row: Vec<PatternColor>| row@),
            width: self.width as nat,
            height: self.height as nat,
        }
    }
}

impl Pattern {
    /// A pattern from a grid of flags: `pixel` where the flag is set, `Skip` elsewhere.
    pub fn from_boolarray<const N: usize, const M: usize>(arr: &[[bool; N]; M], pixel: &PatternColor) -> (p:
        Self)
        requires
            M > 0,
        ensures
            p@.wf(),
            p@.width == N,
            p@.height == M,
            forall|x: int, y: int|
                0 <= x < M && 0 <= y < N ==> #[trigger] p@.data[x][y] == if arr@[x]@[y] {
                    *pixel
                } else {
                    PatternColor::Skip
                },
    {
        let mut data: Vec<Vec<PatternColor>> = Vec::new();
        for x in 0..M
            invariant
                data@.len() == x,
                forall|i: int| 0 <= i < x ==> (#[trigger] data@[i])@.len() == N,
                forall|i: int, j: int|
                    0 <= i < x && 0 <= j < N ==> #[trigger] data@[i]@[j] == if arr@[i]@[j] {
                        *pixel
                    } else {
                        PatternColor::Skip
                    },
        {
            let mut row: Vec<PatternColor> = Vec::new();
            for y in 0..N
                invariant
                    x < M,
                    row@.len() == y,
                    forall|j: int| 0 <= j < y ==> #[trigger] row@[j] == if arr@[x as int]@[j] {
                        *pixel
                    } else {
                        PatternColor::Skip
                    },
            {
                if arr[x][y] {
                    row.push(*pixel);
                } else {
                    row.push(PatternColor::Skip);
                }
            }
            data.push(row);
        }
        let p = Pattern { data, width: N, height: M };
        proof {
            assert forall|x: int| 0 <= x < M implies (#[trigger] p@.data[x]).len() == N by {
                assert(p@.data[x] == p.data@[x]@);
            }
            assert forall|x: int, y: int| 0 <= x < M && 0 <= y < N implies #[trigger] p@.data[x][y] == if arr@[x]@[y] {
                *pixel
            } else {
                PatternColor::Skip
            } by {
                assert(p@.data[x] == p.data@[x]@);
            }
        }
        p
    }

    /// The entry at position `k` of the row-by-row listing of the cells.
    pub open spec fn listed(self, k: int) -> (usize, usize, PatternColor) {
        let w = k % (self@.width as int);
        let h = k / (self@.width as int);
        (w as usize, h as usize, self@.data[w][h])
    }

    /// Every cell with its position, row by row: `(w, h, data[w][h])` for `h` below the
    /// height and `w` below the width, which needs a square pattern (or one of width 0).
    pub fn enumerate_pixels(&self) -> (v: Vec<(usize, usize, PatternColor)>)
        requires
            self@.wf(),
            self@.width == self@.height || self@.width == 0,
        ensures
            v@.len() == self@.height * self@.width,
            forall|k: int| 0 <= k < v@.len() ==> #[trigger] v@[k] == self.listed(k),
            forall|h: int, w: int|
                0 <= h < self@.height && 0 <= w < self@.width ==> {
                    &&& 0 <= #[trigger] row_major(h, w, self@.width as int) < v@.len()
                    &&& v@[row_major(h, w, self@.width as int)] == (w as usize, h as usize, self@.data[w][h])
                },
    {
        let width: usize = self.width;
        let height: usize = self.height;
        let ghost wd: int = width as int;
        let mut v: Vec<(usize, usize, PatternColor)> = Vec::new();
        let mut h: usize = 0;
        while h < height
            invariant
                self@.wf(),
                wd == width == self@.width,
                height == self@.height,
                width == height || width == 0,
                h <= height,
                v@.len() == h * wd,
                forall|k: int| 0 <= k < v@.len() ==> #[trigger] v@[k] == self.listed(k),
            decreases height - h,
        {
            let mut w: usize = 0;
            while w < width
                invariant
                    self@.wf(),
                    wd == width == self@.width,
                    height == self@.height,
                    width == height || width == 0,
                    h < height,
                    w <= width,
                    v@.len() == h * wd + w,
                    forall|k: int| 0 <= k < v@.len() ==> #[trigger] v@[k] == self.listed(k),
                decreases width - w,
            {
                proof {
                    assert(self@.data[w as int] == self.data@[w as int]@);
                    lemma_fundamental_div_mod_converse((h * wd + w) as int, wd, h as int, w as int);
                }
                v.push((w, h, self.data[w][h]));
                w = w + 1;
            }
            proof {
                assert(h * wd + wd == (h + 1) * wd) by (nonlinear_arith);
            }
            h = h + 1;
        }
        proof {
            assert forall|hh: int, ww: int| 0 <= hh < self@.height && 0 <= ww < self@.width implies {
                &&& 0 <= #[trigger] row_major(hh, ww, self@.width as int) < v@.len()
                &&& v@[row_major(hh, ww, self@.width as int)] == (ww as usize, hh as usize, self@.data[ww][hh])
            } by {
                lemma_row_major_bound(hh, ww, wd, height as int);
                lemma_fundamental_div_mod_converse(row_major(hh, ww, wd), wd, hh, ww);
                assert(v@[row_major(hh, ww, wd)] == self.listed(row_major(hh, ww, wd)));
            }
        }
        v
    }
}

impl Pattern {
    /// Every cell of the pattern can be painted.
    pub open spec fn all_paintable(&self) -> bool {
        forall|x: int, y: int| 0 <= x < self@.height && 0 <= y < self@.width ==> is_paintable(#[trigger] self@.data[x][y])
    }

    /// Whether every cell of the pattern can be painted.
    fn check_paintable(&self) -> (r: bool)
        requires
            self@.wf(),
        ensures
            r == self.all_paintable(),
    {
        let mut x: usize = 0;
        while x < self.height
            invariant
                self@.wf(),
                x <= self@.height,
                forall|i: int, j: int| 0 <= i < x && 0 <= j < self@.width ==> is_paintable(#[trigger] self@.data[i][j]),
            decreases self@.height - x,
        {
            proof {
                assert(self@.data[x as int] == self.data@[x as int]@);
            }
            let mut y: usize = 0;
            while y < self.width
                invariant
                    self@.wf(),
                    x < self@.height,
                    y <= self@.width,
                    self@.data[x as int] == self.data@[x as int]@,
                    forall|i: int, j: int| 0 <= i < x && 0 <= j < self@.width ==> is_paintable(#[trigger] self@.data[i][j]),
                    forall|j: int| 0 <= j < y ==> is_paintable(#[trigger] self@.data[x as int][j]),
                decreases self@.width - y,
            {
                let ok: bool = match self.data[x][y] {
                    PatternColor::Solid { .. } => true,
                    PatternColor::Skip => true,
                    PatternColor::Random { minvalue, maxvalue } => minvalue[0] <= maxvalue[0] && minvalue[1] <= maxvalue[1]
                        && minvalue[2] <= maxvalue[2],
                    _ => false,
                };
                if !ok {
                    return false;
                }
                y = y + 1;
            }
            x = x + 1;
        }
        true
    }

    /// Paints the pattern repeated over the whole canvas: a solid cell gives its color, a
    /// skipped cell leaves the pixel, a random cell gives a random color within its
    /// bounds. Fails, leaving the canvas untouched, for an empty pattern or one holding a
    /// cell that cannot be painted.
    pub fn build(&mut self, rng: &mut ChaCha8Rng, img: &mut Canvas) -> (r: Result<(), String>)
        requires
            old(self)@.wf(),
        ensures
            final(self)@ == old(self)@,
            r.is_ok() <==> (old(self)@.width > 0 && old(self)@.height > 0 && old(self).all_paintable()),
            r.is_err() ==> final(img)@ == old(img)@,
            final(img)@.width == old(img)@.width,
            final(img)@.height == old(img)@.height,
            final(img)@.wf(),
            r.is_ok() ==> forall|x: int, y: int|
                old(img)@.in_bounds(x, y) ==> painted_as(
                    old(self)@.tile_at(x, y),
                    old(img)@.pixel(x, y),
                    #[trigger] final(img)@.pixel(x, y),
                ),
    {
        let width: u32 = img.width();
        let height: u32 = img.height();
        if self.width == 0 || self.height == 0 {
            return Err("the pattern is empty".to_owned());
        }
        if !self.check_paintable() {
            return Err("the pattern holds a color that cannot be painted".to_owned());
        }
        let ghost before = img@;
        for y in 0..height
            invariant
                self@.wf(),
                self@.width > 0,
                self@.height > 0,
                self.all_paintable(),
                width == before.width,
                height == before.height,
                img@.width == before.width,
                img@.height == before.height,
                img@.wf(),
                forall|px: int, py: int|
                    before.in_bounds(px, py) ==> if py < y {
                        painted_as(self@.tile_at(px, py), before.pixel(px, py), #[trigger] img@.pixel(px, py))
                    } else {
                        img@.pixel(px, py) == before.pixel(px, py)
                    },
        {
            for x in 0..width
                invariant
                    self@.wf(),
                    self@.width > 0,
                    self@.height > 0,
                    self.all_paintable(),
                    y < height,
                    width == before.width,
                    height == before.height,
                    img@.width == before.width,
                    img@.height == before.height,
                    img@.wf(),
                    forall|px: int, py: int|
                        before.in_bounds(px, py) ==> if py < y || (py == y && px < x) {
                            painted_as(self@.tile_at(px, py), before.pixel(px, py), #[trigger] img@.pixel(px, py))
                        } else {
                            img@.pixel(px, py) == before.pixel(px, py)
                        },
            {
                let row: usize = x as usize % self.height;
                let col: usize = y as usize % self.width;
                proof {
                    assert(self@.data[row as int] == self.data@[row as int]@);
                    assert(is_paintable(self@.data[row as int][col as int]));
                    assert(img@.pixel(x as int, y as int) == before.pixel(x as int, y as int));
                }
                let old_val: Color = img.get_pixel(x, y);
                let new_val: Color = match self.data[row][col] {
                    PatternColor::Solid { color } => color,
                    PatternColor::Random { minvalue, maxvalue } => [
                        draw_u8_inclusive(rng, minvalue[0], maxvalue[0]),
                        draw_u8_inclusive(rng, minvalue[1], maxvalue[1]),
                        draw_u8_inclusive(rng, minvalue[2], maxvalue[2]),
                    ],
                    _ => old_val,
                };
                img.put_pixel(x, y, new_val);
            }
        }
        Ok(())
    }
}

/// Predefined patterns.
pub struct Patterns {}

/// Distance from (x, y) to (2, 2) along the axes.
pub open spec fn axis_distance_to_centre(x: int, y: int) -> int {
    (if x >= 2 { x - 2 } else { 2 - x }) + (if y >= 2 { y - 2 } else { 2 - y })
}

impl Patterns {
    /// A 5 by 5 diamond outline of random colors, each channel in [40, 255].
    pub fn diamond() -> (p: Pattern)
        ensures
            p@.wf(),
            p@.width == 5,
            p@.height == 5,
            forall|x: int, y: int|
                0 <= x < 5 && 0 <= y < 5 ==> #[trigger] p@.data[x][y] == if axis_distance_to_centre(x, y) == 2 {
                    PatternColor::Random { minvalue: [40u8, 40u8, 40u8], maxvalue: [255u8, 255u8, 255u8] }
                } else {
                    PatternColor::Skip
                },
    {
        let flags: [[bool; 5]; 5] = [
            [false, false, true, false, false],
            [false, true, false, true, false],
            [true, false, false, false, true],
            [false, true, false, true, false],
            [false, false, true, false, false],
        ];
        let p = Pattern::from_boolarray(
            &flags,
            &PatternColor::Random { minvalue: [40, 40, 40], maxvalue: [255, 255, 255] },
        );
        proof {
            assert forall|x: int, y: int| 0 <= x < 5 && 0 <= y < 5 implies flags@[x]@[y] == (axis_distance_to_centre(x, y)
                == 2) by {
                assert(flags@[0]@ =~= seq![false, false, true, false, false]);
                assert(flags@[1]@ =~= seq![false, true, false, true, false]);
                assert(flags@[2]@ =~= seq![true, false, false, false, true]);
                assert(flags@[3]@ =~= seq![false, true, false, true, false]);
                assert(flags@[4]@ =~= seq![false, false, true, false, false]);
            }
        }
        p
    }
}

} // verus!
