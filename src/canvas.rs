//! The pixel canvas: a fixed-size grid of RGB triples stored row by row.

use vstd::prelude::*;

verus! {

/// An RGB triple of 8-bit channels.
pub type Color = [u8; 3];

/// What a canvas holds, as mathematics: its size and its pixels, row by row.
pub struct CanvasView {
    pub width: nat,
    pub height: nat,
    pub pixels: Seq<Color>,
}

impl CanvasView {
    /// The pixels hold exactly one color per cell.
    pub open spec fn wf(self) -> bool {
        self.pixels.len() == self.width * self.height
    }

    pub open spec fn in_bounds(self, x: int, y: int) -> bool {
        0 <= x < self.width && 0 <= y < self.height
    }

    /// Position of the cell (x, y) in the row-major pixel sequence.
    pub open spec fn index_of(self, x: int, y: int) -> int {
        y * self.width + x
    }

    /// The color of the cell (x, y).
    pub open spec fn pixel(self, x: int, y: int) -> Color {
        self.pixels[self.index_of(x, y)]
    }

    /// Same size, and every cell but (x, y) keeps its color.
    pub open spec fn with_pixel(self, x: int, y: int, c: Color) -> CanvasView {
        CanvasView {
            width: self.width,
            height: self.height,
            pixels: self.pixels.update(self.index_of(x, y), c),
        }
    }
}

/// Row-major index arithmetic: each cell of a `width` by `height` grid has its own
/// index below `width * height`.
pub proof fn lemma_index_in_range(width: nat, height: nat, x: int, y: int)
    requires
        0 <= x < width,
        0 <= y < height,
    ensures
        0 <= y * width + x < width * height,
{
    assert(y * width + x < width * height) by (nonlinear_arith)
        requires
            0 <= x < width,
            0 <= y < height,
    ;
    assert(0 <= y * width) by (nonlinear_arith)
        requires
            0 <= y,
    ;
}

/// Distinct cells have distinct row-major indices.
pub proof fn lemma_index_injective(width: nat, x1: int, y1: int, x2: int, y2: int)
    requires
        0 <= x1 < width,
        0 <= x2 < width,
        0 <= y1,
        0 <= y2,
        y1 * width + x1 == y2 * width + x2,
    ensures
        x1 == x2,
        y1 == y2,
{
    if y1 < y2 {
        assert(y1 * width + width <= y2 * width) by (nonlinear_arith)
            requires
                y1 < y2,
        ;
    } else if y2 < y1 {
        assert(y2 * width + width <= y1 * width) by (nonlinear_arith)
            requires
                y2 < y1,
        ;
    }
}

/// A mutable `width` by `height` grid of RGB triples.
pub struct Canvas {
    width: u32,
    height: u32,
    pixels: Vec<Color>,
}

impl View for Canvas {
    type V = CanvasView;

    closed spec fn view(&self) -> CanvasView {
        CanvasView { width: self.width as nat, height: self.height as nat, pixels: self.pixels@ }
    }
}

impl Canvas {
    #[verifier::type_invariant]
    spec fn inv(self) -> bool {
        &&& self.pixels@.len() == self.width * self.height
        &&& self.pixels@.len() <= usize::MAX
    }

    /// A black canvas of the given size.
    pub fn new(width: u32, height: u32) -> (c: Canvas)
        requires
            width * height <= usize::MAX,
        ensures
            c@.width == width,
            c@.height == height,
            c@.wf(),
            forall|i: int| 0 <= i < c@.pixels.len() ==> #[trigger] c@.pixels[i] == [0u8, 0u8, 0u8],
    {
        let n: usize = width as usize * height as usize;
        let pixels: Vec<Color> = vec![[0u8, 0u8, 0u8]; n];
        proof {
            assert forall|i: int| 0 <= i < pixels@.len() implies #[trigger] pixels@[i] == [0u8, 0u8, 0u8] by {
                assert(cloned([0u8, 0u8, 0u8], pixels@[i]));
            }
        }
        Canvas { width, height, pixels }
    }

    /// The width; every canvas holds one color per cell.
    pub fn width(&self) -> (w: u32)
        ensures
            w == self@.width,
            self@.wf(),
            self@.width * self@.height <= usize::MAX,
    {
        proof {
            use_type_invariant(self);
        }
        self.width
    }

    /// The height; every canvas holds one color per cell.
    pub fn height(&self) -> (h: u32)
        ensures
            h == self@.height,
            self@.wf(),
            self@.width * self@.height <= usize::MAX,
    {
        proof {
            use_type_invariant(self);
        }
        self.height
    }

    /// The color of the cell (x, y).
    pub fn get_pixel(&self, x: u32, y: u32) -> (c: Color)
        requires
            self@.in_bounds(x as int, y as int),
        ensures
            c == self@.pixel(x as int, y as int),
    {
        proof {
            use_type_invariant(self);
            lemma_index_in_range(self.width as nat, self.height as nat, x as int, y as int);
            assert(self.pixels@.len() <= usize::MAX);
            assert(y * self.width + x < self.pixels@.len());
        }
        self.pixels[y as usize * self.width as usize + x as usize]
    }

    /// Paints the cell (x, y).
    pub fn put_pixel(&mut self, x: u32, y: u32, c: Color)
        requires
            old(self)@.in_bounds(x as int, y as int),
        ensures
            final(self)@ == old(self)@.with_pixel(x as int, y as int, c),
            final(self)@.width == old(self)@.width,
            final(self)@.height == old(self)@.height,
            final(self)@.wf(),
            forall|px: int, py: int|
                old(self)@.in_bounds(px, py) ==> #[trigger] final(self)@.pixel(px, py) == if px == x && py == y {
                    c
                } else {
                    old(self)@.pixel(px, py)
                },
    {
        proof {
            use_type_invariant(&*self);
            lemma_index_in_range(self.width as nat, self.height as nat, x as int, y as int);
            assert(self.pixels@.len() <= usize::MAX);
            assert(y * self.width + x < self.pixels@.len());
        }
        let i: usize = y as usize * self.width as usize + x as usize;
        let mut taken = Canvas { width: 0, height: 0, pixels: Vec::new() };
        core::mem::swap(self, &mut taken);
        let Canvas { width, height, mut pixels } = taken;
        pixels.set(i, c);
        *self = Canvas { width, height, pixels };
        proof {
            assert forall|px: int, py: int| old(self)@.in_bounds(px, py) implies #[trigger] self@.pixel(px, py)
                == if px == x && py == y {
                c
            } else {
                old(self)@.pixel(px, py)
            } by {
                lemma_index_in_range(width as nat, height as nat, px, py);
                if px != x || py != y {
                    if py * width + px == y * width + x {
                        lemma_index_injective(width as nat, px, py, x as int, y as int);
                    }
                }
            }
        }
    }

    /// Paints every cell (x, y) with x0 <= x < x1 and y0 <= y < y1.
    pub fn fill_rect(&mut self, x0: u32, y0: u32, x1: u32, y1: u32, c: Color)
        requires
            x0 <= x1 <= old(self)@.width,
            y0 <= y1 <= old(self)@.height,
        ensures
            final(self)@.width == old(self)@.width,
            final(self)@.height == old(self)@.height,
            final(self)@.wf(),
            forall|px: int, py: int|
                old(self)@.in_bounds(px, py) ==> #[trigger] final(self)@.pixel(px, py) == if x0 <= px < x1 && y0
                    <= py < y1 {
                    c
                } else {
                    old(self)@.pixel(px, py)
                },
    {
        let ghost before = self@;
        let _w: u32 = self.width();
        for x in x0..x1
            invariant
                x1 <= before.width,
                y0 <= y1 <= before.height,
                self@.width == before.width,
                self@.height == before.height,
                self@.wf(),
                forall|px: int, py: int|
                    before.in_bounds(px, py) ==> #[trigger] self@.pixel(px, py) == if x0 <= px < x && y0 <= py < y1 {
                        c
                    } else {
                        before.pixel(px, py)
                    },
        {
            for y in y0..y1
                invariant
                    x < x1 <= before.width,
                    y0 <= y1 <= before.height,
                    self@.width == before.width,
                    self@.height == before.height,
                    self@.wf(),
                    forall|px: int, py: int|
                        before.in_bounds(px, py) ==> #[trigger] self@.pixel(px, py) == if (x0 <= px < x && y0 <= py
                            < y1) || (px == x && y0 <= py < y) {
                            c
                        } else {
                            before.pixel(px, py)
                        },
            {
                self.put_pixel(x, y, c);
            }
        }
    }

    /// The channel bytes of every pixel, row by row: three bytes per pixel.
    pub fn to_rgb_bytes(&self) -> (b: Vec<u8>)
        requires
            3 * self@.pixels.len() <= usize::MAX,
        ensures
            b@.len() == 3 * self@.pixels.len(),
            forall|i: int, k: int|
                0 <= i < self@.pixels.len() && 0 <= k < 3 ==> b@[3 * i + k] == #[trigger] self@.pixels[i][k],
    {
        proof {
            use_type_invariant(self);
        }
        let mut b: Vec<u8> = Vec::new();
        let n: usize = self.pixels.len();
        for i in 0..n
            invariant
                n == self@.pixels.len(),
                3 * n <= usize::MAX,
                b@.len() == 3 * i,
                forall|j: int, k: int|
                    0 <= j < i && 0 <= k < 3 ==> b@[3 * j + k] == #[trigger] self@.pixels[j][k],
        {
            let c: Color = self.pixels[i];
            b.push(c[0]);
            b.push(c[1]);
            b.push(c[2]);
        }
        b
    }
}

} // verus!
