//! A layer of "large pixels": a coarse grid of colors, one per block of canvas
//! pixels, that can be drawn onto a canvas.

use crate::canvas::{Canvas, CanvasView};
use vstd::arithmetic::div_mod::{lemma_fundamental_div_mod, lemma_mod_pos_bound};
use vstd::prelude::*;

verus! {

/// How a layer's colors combine with the pixels beneath them.
#[derive(Clone, Copy, PartialEq, Eq, Structural)]
pub enum MixMode {
    /// The layer's color replaces the pixel.
    Normal,
}

/// A grid of `squares_h` columns by `squares_v` rows of blocks; each block covers
/// `squaresize_h` by `squaresize_v` canvas pixels. `data[x][y]` is the color of
/// the block in column `x` and row `y`.
pub struct SquaresLayer<Color: Default + Clone> {
    squaresize_h: usize,
    squaresize_v: usize,
    squares_h: usize,
    squares_v: usize,
    mixmode: MixMode,
    data: Vec<Vec<Color>>,
}

/// A layer as mathematics.
pub struct LayerView<Color> {
    pub squaresize_h: nat,
    pub squaresize_v: nat,
    pub squares_h: nat,
    pub squares_v: nat,
    pub mixmode: MixMode,
    pub data: Seq<Seq<Color>>,
}

impl<Color> LayerView<Color> {
    /// One column of colors per block column, one color per block row.
    pub open spec fn wf(self) -> bool {
        &&& self.data.len() == self.squares_h
        &&& forall|x: int| 0 <= x < self.squares_h ==> (#[trigger] self.data[x]).len() == self.squares_v
    }

    /// The color of the block in column x, row y.
    pub open spec fn color(self, x: int, y: int) -> Color {
        self.data[x][y]
    }

    /// Canvas pixels covered by the layer, across.
    pub open spec fn layer_width(self) -> nat {
        self.squares_h * self.squaresize_h
    }

    /// Canvas pixels covered by the layer, down.
    pub open spec fn layer_height(self) -> nat {
        self.squares_v * self.squaresize_v
    }
}

impl<Color: Default + Clone> View for SquaresLayer<Color> {
    type V = LayerView<Color>;

    closed spec fn view(&self) -> LayerView<Color> {
        LayerView {
            squaresize_h: self.squaresize_h as nat,
            squaresize_v: self.squaresize_v as nat,
            squares_h: self.squares_h as nat,
            squares_v: self.squares_v as nat,
            mixmode: self.mixmode,
            data: self.data@.map_values(|col: Vec<Color>| col@),
        }
    }
}

impl LayerView<[u8; 3]> {
    /// `after` is `before` with the layer drawn over its top-left corner: each pixel
    /// under the layer takes the color of the block that covers it, every other pixel
    /// keeps its color.
    pub open spec fn rendered(self, before: CanvasView, after: CanvasView) -> bool {
        &&& after.width == before.width
        &&& after.height == before.height
        &&& after.wf()
        &&& forall|px: int, py: int|
            before.in_bounds(px, py) ==> #[trigger] after.pixel(px, py) == if px < self.layer_width() && py
                < self.layer_height() {
                self.color(px / self.squaresize_h as int, py / self.squaresize_v as int)
            } else {
                before.pixel(px, py)
            }
    }
}

/// A coordinate lies in block `b` of a given size exactly when it divides down to `b`.
pub proof fn lemma_block_of(p: int, size: int, b: int)
    requires
        0 <= p,
        0 < size,
    ensures
        (p / size == b) <==> (b * size <= p < (b + 1) * size),
{
    lemma_fundamental_div_mod(p, size);
    lemma_mod_pos_bound(p, size);
    let q = p / size;
    let r = p % size;
    if q == b {
        assert(b * size <= p < (b + 1) * size) by (nonlinear_arith)
            requires
                p == size * q + r,
                0 <= r < size,
                q == b,
        ;
    } else if q < b {
        assert(p < b * size) by (nonlinear_arith)
            requires
                p == size * q + r,
                0 <= r < size,
                q < b,
        ;
    } else {
        assert(p >= (b + 1) * size) by (nonlinear_arith)
            requires
                p == size * q + r,
                0 <= r < size,
                q > b,
        ;
    }
}

/// A coordinate below `n` whole blocks lies in one of the first `n` blocks.
pub proof fn lemma_block_below(p: int, size: int, n: int)
    requires
        0 <= p < n * size,
        0 < size,
    ensures
        0 <= p / size < n,
{
    lemma_fundamental_div_mod(p, size);
    lemma_mod_pos_bound(p, size);
    let q = p / size;
    let r = p % size;
    assert(0 <= q < n) by (nonlinear_arith)
        requires
            p == size * q + r,
            0 <= r < size,
            0 <= p < n * size,
            0 < size,
    ;
}

/// Block (bx, by) comes before block (cx, cy) in column-major order.
pub open spec fn block_before(bx: int, by: int, cx: int, cy: int) -> bool {
    bx < cx || (bx == cx && by < cy)
}

/// Block count along one axis for a canvas extent: whole blocks only, at least one.
pub open spec fn block_count(extent: nat, size: nat) -> nat {
    if extent / size >= 1 { extent / size } else { 1 }
}

impl<Color: Default + Clone> SquaresLayer<Color> {
    /// A layer of the given block counts and block size, every block holding the
    /// default color.
    pub fn new(squares_h: usize, squares_v: usize, squaresize_h: usize, squaresize_v: usize) -> (l: Self)
        ensures
            l@.wf(),
            l@.squares_h == squares_h,
            l@.squares_v == squares_v,
            l@.squaresize_h == squaresize_h,
            l@.squaresize_v == squaresize_v,
            l@.mixmode == MixMode::Normal,
    {
        let mut data: Vec<Vec<Color>> = Vec::new();
        for x in 0..squares_h
            invariant
                data@.len() == x,
                forall|i: int| 0 <= i < x ==> (#[trigger] data@[i])@.len() == squares_v,
        {
            let mut col: Vec<Color> = Vec::new();
            for y in 0..squares_v
                invariant
                    col@.len() == y,
            {
                col.push(Color::default());
            }
            data.push(col);
        }
        let l = SquaresLayer { squaresize_h, squaresize_v, squares_h, squares_v, mixmode: MixMode::Normal, data };
        proof {
            assert(l@.data.len() == squares_h);
        }
        l
    }

    /// Number of block rows.
    pub fn squares_v(&self) -> (n: usize)
        ensures
            n == self@.squares_v,
    {
        self.squares_v
    }

    /// Number of block columns.
    pub fn squares_h(&self) -> (n: usize)
        ensures
            n == self@.squares_h,
    {
        self.squares_h
    }

    /// The color of the block in column x, row y.
    pub fn get_color_at(&self, x: usize, y: usize) -> (c: &Color)
        requires
            self@.wf(),
            x < self@.squares_h,
            y < self@.squares_v,
        ensures
            *c == self@.color(x as int, y as int),
    {
        proof {
            assert(self@.data[x as int] == self.data@[x as int]@);
        }
        &self.data[x][y]
    }

    /// Resizes the grid to whole blocks of the current block size over an image of the
    /// given size (at least one block each way). Blocks present before and after keep
    /// their colors; new blocks hold the default color.
    pub fn adjust_square_count_to_image_dimensions(&mut self, img_width: usize, img_height: usize)
        requires
            old(self)@.wf(),
            old(self)@.squaresize_h > 0,
            old(self)@.squaresize_v > 0,
        ensures
            final(self)@.wf(),
            final(self)@.squares_h == block_count(img_width as nat, old(self)@.squaresize_h),
            final(self)@.squares_v == block_count(img_height as nat, old(self)@.squaresize_v),
            final(self)@.squaresize_h == old(self)@.squaresize_h,
            final(self)@.squaresize_v == old(self)@.squaresize_v,
            final(self)@.mixmode == old(self)@.mixmode,
            forall|x: int, y: int|
                0 <= x < final(self)@.squares_h && x < old(self)@.squares_h && 0 <= y < final(self)@.squares_v
                    && y < old(self)@.squares_v ==> #[trigger] final(self)@.color(x, y) == old(self)@.color(x, y),
    {
        let new_v: usize = if img_height / self.squaresize_v >= 1 { img_height / self.squaresize_v } else { 1 };
        let new_h: usize = if img_width / self.squaresize_h >= 1 { img_width / self.squaresize_h } else { 1 };
        let ghost old_data = self@.data;
        let mut data: Vec<Vec<Color>> = Vec::new();
        core::mem::swap(&mut data, &mut self.data);
        let mut resized: Vec<Vec<Color>> = Vec::new();
        let mut x: usize = 0;
        while x < new_h
            invariant
                x <= new_h,
                resized@.len() == x,
                data@.len() == old_data.len(),
                forall|i: int| x <= i < old_data.len() ==> (#[trigger] data@[i])@ == old_data[i],
                forall|i: int| 0 <= i < x ==> (#[trigger] resized@[i])@.len() == new_v,
                forall|i: int, j: int|
                    0 <= i < x && i < old_data.len() && 0 <= j < new_v && j < old_data[i].len()
                        ==> #[trigger] resized@[i]@[j] == old_data[i][j],
            decreases new_h - x,
        {
            let mut col: Vec<Color> = Vec::new();
            if x < data.len() {
                core::mem::swap(&mut col, &mut data[x]);
            }
            if col.len() > new_v {
                col.truncate(new_v);
            }
            let ghost kept = col@;
            while col.len() < new_v
                invariant
                    kept.len() <= col@.len() <= new_v,
                    forall|j: int| 0 <= j < kept.len() ==> #[trigger] col@[j] == kept[j],
                decreases new_v - col@.len(),
            {
                col.push(Color::default());
            }
            resized.push(col);
            x = x + 1;
        }
        self.data = resized;
        self.squares_h = new_h;
        self.squares_v = new_v;
    }

    /// Sets the color of the block in column x, row y.
    pub fn set_color_at(&mut self, x: usize, y: usize, color: Color)
        requires
            old(self)@.wf(),
            x < old(self)@.squares_h,
            y < old(self)@.squares_v,
        ensures
            final(self)@ == (LayerView {
                data: old(self)@.data.update(x as int, old(self)@.data[x as int].update(y as int, color)),
                ..old(self)@
            }),
    {
        let mut col: Vec<Color> = Vec::new();
        core::mem::swap(&mut col, &mut self.data[x]);
        col.set(y, color);
        core::mem::swap(&mut col, &mut self.data[x]);
        proof {
            assert(self@.data =~= old(self)@.data.update(x as int, old(self)@.data[x as int].update(y as int, color)));
        }
    }

    /// Sets how the layer combines with the canvas.
    pub fn set_mix_mode(&mut self, mode: MixMode)
        ensures
            final(self)@ == (LayerView { mixmode: mode, ..old(self)@ }),
    {
        self.mixmode = mode;
        proof {
            assert(self@.data =~= old(self)@.data);
        }
    }

    /// How the layer combines with the canvas.
    pub fn get_mix_mode(&self) -> (m: MixMode)
        ensures
            m == self@.mixmode,
    {
        self.mixmode
    }
}

impl SquaresLayer<[u8; 3]> {
    /// Paints the canvas pixels of the block in column `square_x`, row `square_y`.
    fn color_square(&self, square_x: usize, square_y: usize, canvas: &mut Canvas, color: [u8; 3])
        requires
            (square_x + 1) * self@.squaresize_h <= old(canvas)@.width,
            (square_y + 1) * self@.squaresize_v <= old(canvas)@.height,
        ensures
            final(canvas)@.width == old(canvas)@.width,
            final(canvas)@.height == old(canvas)@.height,
            final(canvas)@.wf(),
            forall|px: int, py: int|
                old(canvas)@.in_bounds(px, py) ==> #[trigger] final(canvas)@.pixel(px, py) == if square_x
                    * self@.squaresize_h <= px < (square_x + 1) * self@.squaresize_h && square_y
                    * self@.squaresize_v <= py < (square_y + 1) * self@.squaresize_v {
                    color
                } else {
                    old(canvas)@.pixel(px, py)
                },
    {
        let _canvas_w: u32 = canvas.width();
        let _canvas_h: u32 = canvas.height();
        proof {
            assert(square_x * self.squaresize_h + self.squaresize_h == (square_x + 1) * self.squaresize_h)
                by (nonlinear_arith);
            assert(square_y * self.squaresize_v + self.squaresize_v == (square_y + 1) * self.squaresize_v)
                by (nonlinear_arith);
        }
        let x_start: usize = square_x * self.squaresize_h;
        let y_start: usize = square_y * self.squaresize_v;
        let x_end: usize = x_start + self.squaresize_h;
        let y_end: usize = y_start + self.squaresize_v;
        canvas.fill_rect(x_start as u32, y_start as u32, x_end as u32, y_end as u32, color);
    }

    /// Draws every block onto the canvas as a solid rectangle. Fails, leaving the
    /// canvas untouched, when the layer reaches past the canvas's bottom or right edge.
    pub fn draw(&self, canvas: &mut Canvas) -> (r: Result<(), String>)
        requires
            self@.wf(),
        ensures
            r.is_err() <==> (self@.layer_height() > old(canvas)@.height || self@.layer_width()
                > old(canvas)@.width),
            r.is_err() ==> final(canvas)@ == old(canvas)@,
            r.is_ok() ==> self@.rendered(old(canvas)@, final(canvas)@),
    {
        let ghost before = canvas@;
        let canvas_w = canvas.width();
        let canvas_h = canvas.height();
        let layer_height: usize = match self.squares_v.checked_mul(self.squaresize_v) {
            Some(v) => v,
            None => {
                return Err("the image is less high than the layer".to_owned());
            },
        };
        if layer_height > canvas_h as usize {
            return Err("the image is less high than the layer".to_owned());
        }
        let layer_width: usize = match self.squares_h.checked_mul(self.squaresize_h) {
            Some(v) => v,
            None => {
                return Err("the image is less wide than the layer".to_owned());
            },
        };
        if layer_width > canvas_w as usize {
            return Err("the image is less wide than the layer".to_owned());
        }
        let ghost sh = self.squaresize_h as int;
        let ghost sv = self.squaresize_v as int;
        let ghost lw = layer_width as int;
        let ghost lh = layer_height as int;
        proof {
            assert forall|px: int, py: int| before.in_bounds(px, py) && px < lw && py < lh implies px / sh
                >= 0 by {
                assert(sh > 0) by (nonlinear_arith)
                    requires
                        0 <= px < lw,
                        lw == self@.squares_h * sh,
                        sh >= 0,
                ;
            }
        }
        for x in 0..self.squares_h
            invariant
                self@.wf(),
                lw == self@.layer_width(),
                lh == self@.layer_height(),
                sh == self@.squaresize_h,
                sv == self@.squaresize_v,
                lw <= before.width,
                lh <= before.height,
                canvas@.width == before.width,
                canvas@.height == before.height,
                canvas@.wf(),
                forall|px: int, py: int|
                    before.in_bounds(px, py) ==> #[trigger] canvas@.pixel(px, py) == if px < lw && py < lh
                        && px / sh < x {
                        self@.color(px / sh, py / sv)
                    } else {
                        before.pixel(px, py)
                    },
        {
            proof {
                assert forall|px: int, py: int| before.in_bounds(px, py) && px < lw && py < lh implies py / sv
                    >= 0 by {
                    assert(sv > 0) by (nonlinear_arith)
                        requires
                            0 <= py < lh,
                            lh == self@.squares_v * sv,
                            sv >= 0,
                    ;
                }
            }
            for y in 0..self.squares_v
                invariant
                    self@.wf(),
                    x < self@.squares_h,
                    lw == self@.layer_width(),
                    lh == self@.layer_height(),
                    sh == self@.squaresize_h,
                    sv == self@.squaresize_v,
                    lw <= before.width,
                    lh <= before.height,
                    canvas@.width == before.width,
                    canvas@.height == before.height,
                    canvas@.wf(),
                    forall|px: int, py: int|
                        before.in_bounds(px, py) ==> #[trigger] canvas@.pixel(px, py) == if px < lw && py < lh
                            && block_before(px / sh, py / sv, x as int, y as int) {
                            self@.color(px / sh, py / sv)
                        } else {
                            before.pixel(px, py)
                        },
            {
                proof {
                    assert((x + 1) * sh <= self@.squares_h * sh) by (nonlinear_arith)
                        requires
                            x < self@.squares_h,
                            0 <= sh,
                    ;
                    assert((y + 1) * sv <= self@.squares_v * sv) by (nonlinear_arith)
                        requires
                            y < self@.squares_v,
                            0 <= sv,
                    ;
                    assert(self@.data[x as int] == self.data@[x as int]@);
                }
                let color: [u8; 3] = self.data[x][y];
                self.color_square(x, y, canvas, color);
                proof {
                    assert forall|px: int, py: int| before.in_bounds(px, py) implies #[trigger] canvas@.pixel(px, py)
                        == if px < lw && py < lh && block_before(px / sh, py / sv, x as int, (y + 1) as int) {
                        self@.color(px / sh, py / sv)
                    } else {
                        before.pixel(px, py)
                    } by {
                        let in_block = x * sh <= px < (x + 1) * sh && y * sv <= py < (y + 1) * sv;
                        if in_block {
                            assert(sh > 0 && sv > 0) by (nonlinear_arith)
                                requires
                                    x * sh <= px < (x + 1) * sh,
                                    y * sv <= py < (y + 1) * sv,
                            ;
                            lemma_block_of(px, sh, x as int);
                            lemma_block_of(py, sv, y as int);
                        }
                        if px < lw && py < lh {
                            assert(sh > 0 && sv > 0) by (nonlinear_arith)
                                requires
                                    0 <= px < lw,
                                    0 <= py < lh,
                                    lw == self@.squares_h * sh,
                                    lh == self@.squares_v * sv,
                                    sh >= 0,
                                    sv >= 0,
                            ;
                            lemma_block_of(px, sh, x as int);
                            lemma_block_of(py, sv, y as int);
                        }
                    }
                }
            }
            proof {
                assert forall|px: int, py: int| before.in_bounds(px, py) implies #[trigger] canvas@.pixel(px, py)
                    == if px < lw && py < lh && px / sh < x + 1 {
                    self@.color(px / sh, py / sv)
                } else {
                    before.pixel(px, py)
                } by {
                    if px < lw && py < lh {
                        assert(sh > 0 && sv > 0) by (nonlinear_arith)
                            requires
                                0 <= px < lw,
                                0 <= py < lh,
                                lw == self@.squares_h * sh,
                                lh == self@.squares_v * sv,
                                sh >= 0,
                                sv >= 0,
                        ;
                        lemma_block_below(py, sv, self@.squares_v as int);
                    }
                }
            }
        }
        proof {
            assert forall|px: int, py: int| before.in_bounds(px, py) implies #[trigger] canvas@.pixel(px, py)
                == if px < lw && py < lh {
                self@.color(px / sh, py / sv)
            } else {
                before.pixel(px, py)
            } by {
                if px < lw && py < lh {
                    assert(sh > 0) by (nonlinear_arith)
                        requires
                            0 <= px < lw,
                            lw == self@.squares_h * sh,
                            sh >= 0,
                    ;
                    lemma_block_below(px, sh, self@.squares_h as int);
                }
            }
        }
        Ok(())
    }
}

} // verus!
