//! Islands: a noise height field shaded into sea, shore and land, under a dashed
//! map grid. The height at each pixel comes from the caller; this module turns
//! heights into colors and draws the grid.

use crate::canvas::{Canvas, CanvasView, Color};
use vstd::arithmetic::div_mod::lemma_fundamental_div_mod_converse;
use vstd::prelude::*;

verus! {

/// Length of one dash plus one gap of the grid lines, in pixels.
pub const DASH_PERIOD: u32 = 20;

/// Length of one dash of the grid lines, in pixels.
pub const DASH_LENGTH: u32 = 10;

/// Grid cells along the shorter side of the canvas.
pub const GRID_CELLS: usize = 6;

/// The Islands palette and grid layout.
pub struct Islands {
    threshold_val_1: u8,
    threshold_val_2: u8,
    background_base_color: Color,
    border_color: Color,
    foreground_base_color: Color,
    dashed_grid_color: Color,
    grid_margins: usize,
}

/// Pixel (x, y) lies on a dash of the horizontal grid line at row `row`.
pub open spec fn on_horizontal_dash(x: int, y: int, row: int) -> bool {
    y == row && x % (DASH_PERIOD as int) < DASH_LENGTH
}

/// Pixel (x, y) lies on a dash of the vertical grid line at column `col`.
pub open spec fn on_vertical_dash(x: int, y: int, col: int) -> bool {
    x == col && y % (DASH_PERIOD as int) < DASH_LENGTH
}

/// `v` is one of the grid positions `margin`, `margin + step`, `margin + 2 * step`, ...
pub open spec fn on_grid(v: int, margin: int, step: int) -> bool {
    v >= margin && (v - margin) % step == 0
}

/// Spacing of the grid lines: the shorter side less both margins, in six parts
/// (zero when the margins take the whole side).
pub open spec fn grid_spacing(width: int, height: int, margins: int) -> int {
    let short = if width > height { height } else { width };
    if short >= 2 * margins { (short - 2 * margins) / (GRID_CELLS as int) } else { 0 }
}

impl Default for Islands {
    fn default() -> (i: Islands)
        ensures
            i.threshold_val_1() == 195,
            i.threshold_val_2() == 190,
            i.background_base_color() == [198u8, 151u8, 63u8],
            i.border_color() == [154u8, 115u8, 82u8],
            i.foreground_base_color() == [202u8, 168u8, 131u8],
            i.dashed_grid_color() == [100u8, 96u8, 82u8],
            i.grid_margins() == 10,
    {
        Islands {
            threshold_val_1: 195,
            threshold_val_2: 190,
            background_base_color: [198, 151, 63],
            border_color: [154, 115, 82],
            foreground_base_color: [202, 168, 131],
            dashed_grid_color: [100, 96, 82],
            grid_margins: 10,
        }
    }
}

impl Islands {
    /// Heights above this are land.
    pub closed spec fn threshold_val_1(&self) -> u8 {
        self.threshold_val_1
    }

    /// Heights above this (and not above the land threshold) are shore.
    pub closed spec fn threshold_val_2(&self) -> u8 {
        self.threshold_val_2
    }

    pub closed spec fn background_base_color(&self) -> Color {
        self.background_base_color
    }

    pub closed spec fn border_color(&self) -> Color {
        self.border_color
    }

    pub closed spec fn foreground_base_color(&self) -> Color {
        self.foreground_base_color
    }

    pub closed spec fn dashed_grid_color(&self) -> Color {
        self.dashed_grid_color
    }

    pub closed spec fn grid_margins(&self) -> nat {
        self.grid_margins as nat
    }

    /// The channel value for height `value`: the land value above the first threshold,
    /// the shore value above the second, the sea value otherwise.
    pub open spec fn threshold_spec(&self, value: u8, land: u8, shore: u8, sea: u8) -> u8 {
        if value > self.threshold_val_1() {
            land
        } else if value > self.threshold_val_2() {
            shore
        } else {
            sea
        }
    }

    /// The color of a pixel of height `value`: land is the foreground color scaled by
    /// the height, shore is the border color, sea is the mean of the background color
    /// and the height; each channel rounded down.
    pub open spec fn shade_spec(&self, value: u8) -> Color {
        [
            self.threshold_spec(
                value,
                (self.foreground_base_color()[0] * value / 255) as u8,
                self.border_color()[0],
                ((self.background_base_color()[0] + value) / 2) as u8,
            ),
            self.threshold_spec(
                value,
                (self.foreground_base_color()[1] * value / 255) as u8,
                self.border_color()[1],
                ((self.background_base_color()[1] + value) / 2) as u8,
            ),
            self.threshold_spec(
                value,
                (self.foreground_base_color()[2] * value / 255) as u8,
                self.border_color()[2],
                ((self.background_base_color()[2] + value) / 2) as u8,
            ),
        ]
    }

    /// Picks the land, shore or sea value for height `value`.
    pub fn compute_threshold(&self, value: u8, replacement_1: u8, replacement_2: u8, replacement_3: u8) -> (r: u8)
        ensures
            r == self.threshold_spec(value, replacement_1, replacement_2, replacement_3),
    {
        if value > self.threshold_val_1 {
            replacement_1
        } else if value > self.threshold_val_2 {
            replacement_2
        } else {
            replacement_3
        }
    }

    /// One channel of the color for height `value`.
    fn shade_channel(&self, value: u8, k: usize) -> (r: u8)
        requires
            k < 3,
        ensures
            r == self.shade_spec(value)[k as int],
    {
        let fg: u32 = self.foreground_base_color[k] as u32;
        let bg: u32 = self.background_base_color[k] as u32;
        proof {
            assert(fg * value / 255 <= 255) by (nonlinear_arith)
                requires
                    fg <= 255,
                    value <= 255,
            ;
        }
        let land: u8 = (fg * value as u32 / 255) as u8;
        let sea: u8 = ((bg + value as u32) / 2) as u8;
        self.compute_threshold(value, land, self.border_color[k], sea)
    }

    /// The color of a pixel of height `value`; see `shade_spec`.
    pub fn shade(&self, value: u8) -> (c: Color)
        ensures
            c == self.shade_spec(value),
    {
        let c: Color = [self.shade_channel(value, 0), self.shade_channel(value, 1), self.shade_channel(value, 2)];
        proof {
            assert(c@ =~= self.shade_spec(value)@);
        }
        c
    }

    /// Draws a dashed horizontal line across the canvas at row `y`.
    pub fn draw_horiz_dashed(&self, img: &mut Canvas, y: usize)
        requires
            y < old(img)@.height,
        ensures
            final(img)@.width == old(img)@.width,
            final(img)@.height == old(img)@.height,
            final(img)@.wf(),
            forall|px: int, py: int|
                old(img)@.in_bounds(px, py) ==> #[trigger] final(img)@.pixel(px, py) == if on_horizontal_dash(
                    px,
                    py,
                    y as int,
                ) {
                    self.dashed_grid_color()
                } else {
                    old(img)@.pixel(px, py)
                },
    {
        let width: u32 = img.width();
        let _height: u32 = img.height();
        let ghost before = img@;
        for x in 0..width
            invariant
                width == before.width,
                y < before.height <= u32::MAX,
                img@.width == before.width,
                img@.height == before.height,
                img@.wf(),
                forall|px: int, py: int|
                    before.in_bounds(px, py) ==> #[trigger] img@.pixel(px, py) == if px < x && on_horizontal_dash(
                        px,
                        py,
                        y as int,
                    ) {
                        self.dashed_grid_color()
                    } else {
                        before.pixel(px, py)
                    },
        {
            if x % DASH_PERIOD < DASH_LENGTH {
                img.put_pixel(x, y as u32, self.dashed_grid_color);
            }
        }
    }

    /// Draws a dashed vertical line down the canvas at column `x`.
    pub fn draw_vert_dashed(&self, img: &mut Canvas, x: usize)
        requires
            x < old(img)@.width,
        ensures
            final(img)@.width == old(img)@.width,
            final(img)@.height == old(img)@.height,
            final(img)@.wf(),
            forall|px: int, py: int|
                old(img)@.in_bounds(px, py) ==> #[trigger] final(img)@.pixel(px, py) == if on_vertical_dash(
                    px,
                    py,
                    x as int,
                ) {
                    self.dashed_grid_color()
                } else {
                    old(img)@.pixel(px, py)
                },
    {
        let _width: u32 = img.width();
        let height: u32 = img.height();
        let ghost before = img@;
        for y in 0..height
            invariant
                height == before.height,
                x < before.width <= u32::MAX,
                img@.width == before.width,
                img@.height == before.height,
                img@.wf(),
                forall|px: int, py: int|
                    before.in_bounds(px, py) ==> #[trigger] img@.pixel(px, py) == if py < y && on_vertical_dash(
                        px,
                        py,
                        x as int,
                    ) {
                        self.dashed_grid_color()
                    } else {
                        before.pixel(px, py)
                    },
        {
            if y % DASH_PERIOD < DASH_LENGTH {
                img.put_pixel(x as u32, y, self.dashed_grid_color);
            }
        }
    }
}

/// Between two neighbouring grid positions lies no other.
proof fn lemma_grid_step(r: int, v: int, margin: int, step: int)
    requires
        step > 0,
        on_grid(v, margin, step),
        v <= r < v + step,
    ensures
        on_grid(r, margin, step) <==> r == v,
{
    let q = (v - margin) / step;
    vstd::arithmetic::div_mod::lemma_fundamental_div_mod(v - margin, step);
    assert(v - margin == step * q);
    assert(r - margin == q * step + (r - v)) by (nonlinear_arith)
        requires
            v - margin == step * q,
    ;
    lemma_fundamental_div_mod_converse(r - margin, step, q, r - v);
}

impl Islands {
    /// The dashed map grid: horizontal lines at rows `margins`, `margins + spacing`, ...
    /// and vertical lines at the same columns, the spacing being `grid_spacing`.
    pub open spec fn gridded(&self, before: CanvasView, after: CanvasView) -> bool {
        let step = grid_spacing(before.width as int, before.height as int, self.grid_margins() as int);
        let m = self.grid_margins() as int;
        &&& after.width == before.width
        &&& after.height == before.height
        &&& after.wf()
        &&& forall|px: int, py: int|
            before.in_bounds(px, py) ==> #[trigger] after.pixel(px, py) == if (on_grid(py, m, step) && px
                % (DASH_PERIOD as int) < DASH_LENGTH) || (on_grid(px, m, step) && py % (DASH_PERIOD as int)
                < DASH_LENGTH) {
                self.dashed_grid_color()
            } else {
                before.pixel(px, py)
            }
    }

    /// Draws the dashed map grid. Fails, leaving the canvas untouched, when the
    /// spacing comes out as zero (the shorter side is less than both margins plus six
    /// pixels).
    pub fn draw_grid(&self, img: &mut Canvas) -> (r: Result<(), String>)
        ensures
            r.is_err() <==> grid_spacing(old(img)@.width as int, old(img)@.height as int, self.grid_margins() as int) == 0,
            r.is_err() ==> final(img)@ == old(img)@,
            r.is_ok() ==> self.gridded(old(img)@, final(img)@),
    {
        let width: u32 = img.width();
        let height: u32 = img.height();
        let short: usize = if width > height { height as usize } else { width as usize };
        let m: usize = self.grid_margins;
        let step: usize = if short >= m && short - m >= m { (short - m - m) / GRID_CELLS } else { 0 };
        if step == 0 {
            return Err("the canvas is too small for the map grid".to_owned());
        }
        let ghost before = img@;
        let ghost mi = m as int;
        let ghost st = step as int;
        proof {
            lemma_fundamental_div_mod_converse(0, st, 0, 0);
        }
        let mut y: u64 = m as u64;
        while y < height as u64
            invariant
                st > 0,
                st == step,
                st == grid_spacing(before.width as int, before.height as int, mi),
                mi == m == self.grid_margins(),
                step <= height,
                width == before.width,
                height == before.height,
                y >= mi,
                y < height + st,
                on_grid(y as int, mi, st),
                img@.width == before.width,
                img@.height == before.height,
                img@.wf(),
                forall|px: int, py: int|
                    before.in_bounds(px, py) ==> #[trigger] img@.pixel(px, py) == if py < y && on_grid(py, mi, st)
                        && px % (DASH_PERIOD as int) < DASH_LENGTH {
                        self.dashed_grid_color()
                    } else {
                        before.pixel(px, py)
                    },
            decreases height + st - y,
        {
            let ghost mid = img@;
            self.draw_horiz_dashed(img, y as usize);
            proof {
                assert forall|px: int, py: int| before.in_bounds(px, py) implies #[trigger] img@.pixel(px, py) == if py
                    < y + st && on_grid(py, mi, st) && px % (DASH_PERIOD as int) < DASH_LENGTH {
                    self.dashed_grid_color()
                } else {
                    before.pixel(px, py)
                } by {
                    assert(mid.in_bounds(px, py));
                    if y <= py < y + st {
                        lemma_grid_step(py, y as int, mi, st);
                    }
                }
                assert(on_grid(y + st, mi, st)) by {
                    vstd::arithmetic::div_mod::lemma_fundamental_div_mod(y - mi, st);
                    assert(y + st - mi == ((y - mi) / st + 1) * st + 0) by (nonlinear_arith)
                        requires
                            y - mi == st * ((y - mi) / st) + (y - mi) % st,
                            (y - mi) % st == 0,
                    ;
                    lemma_fundamental_div_mod_converse(y + st - mi, st, (y - mi) / st + 1, 0);
                }
            }
            y = y + step as u64;
        }
        proof {
            assert forall|px: int, py: int| before.in_bounds(px, py) implies #[trigger] img@.pixel(px, py) == if on_grid(
                py,
                mi,
                st,
            ) && px % (DASH_PERIOD as int) < DASH_LENGTH {
                self.dashed_grid_color()
            } else {
                before.pixel(px, py)
            } by {}
        }
        let ghost rows = img@;
        let mut x: u64 = m as u64;
        while x < width as u64
            invariant
                st > 0,
                st == step,
                mi == m == self.grid_margins(),
                step <= width,
                width == before.width,
                height == before.height,
                x >= mi,
                x < width + st,
                on_grid(x as int, mi, st),
                rows.width == before.width,
                rows.height == before.height,
                img@.width == before.width,
                img@.height == before.height,
                img@.wf(),
                forall|px: int, py: int|
                    before.in_bounds(px, py) ==> #[trigger] img@.pixel(px, py) == if px < x && on_grid(px, mi, st)
                        && py % (DASH_PERIOD as int) < DASH_LENGTH {
                        self.dashed_grid_color()
                    } else {
                        rows.pixel(px, py)
                    },
            decreases width + st - x,
        {
            let ghost mid = img@;
            self.draw_vert_dashed(img, x as usize);
            proof {
                assert forall|px: int, py: int| before.in_bounds(px, py) implies #[trigger] img@.pixel(px, py) == if px
                    < x + st && on_grid(px, mi, st) && py % (DASH_PERIOD as int) < DASH_LENGTH {
                    self.dashed_grid_color()
                } else {
                    rows.pixel(px, py)
                } by {
                    assert(mid.in_bounds(px, py));
                    if x <= px < x + st {
                        lemma_grid_step(px, x as int, mi, st);
                    }
                }
                assert(on_grid(x + st, mi, st)) by {
                    vstd::arithmetic::div_mod::lemma_fundamental_div_mod(x - mi, st);
                    assert(x + st - mi == ((x - mi) / st + 1) * st + 0) by (nonlinear_arith)
                        requires
                            x - mi == st * ((x - mi) / st) + (x - mi) % st,
                            (x - mi) % st == 0,
                    ;
                    lemma_fundamental_div_mod_converse(x + st - mi, st, (x - mi) / st + 1, 0);
                }
            }
            x = x + step as u64;
        }
        proof {
            assert forall|px: int, py: int| before.in_bounds(px, py) implies #[trigger] img@.pixel(px, py) == if (on_grid(
                py,
                mi,
                st,
            ) && px % (DASH_PERIOD as int) < DASH_LENGTH) || (on_grid(px, mi, st) && py % (DASH_PERIOD as int)
                < DASH_LENGTH) {
                self.dashed_grid_color()
            } else {
                before.pixel(px, py)
            } by {
                assert(rows.in_bounds(px, py));
            }
        }
        Ok(())
    }
}

} // verus!
