//! A flood-growth cellular process: random seed cells spread outward, each
//! uncolored cell taking the darkened mean color of its colored diagonal
//! neighbours, until every cell has a color.

use crate::canvas::{lemma_index_in_range, lemma_index_injective, Canvas, CanvasView, Color};
use crate::random::{draw_ratio, draw_u32, draw_u8};
use rand_chacha::ChaCha8Rng;
use vstd::prelude::*;

verus! {

/// Number of `true` entries in a sequence.
pub open spec fn count_true(s: Seq<bool>) -> nat
    decreases s.len(),
{
    if s.len() == 0 {
        0
    } else {
        count_true(s.drop_last()) + if s.last() { 1nat } else { 0nat }
    }
}

/// Setting an entry that was `false` adds one to the count.
pub proof fn lemma_count_true_set(s: Seq<bool>, i: int)
    requires
        0 <= i < s.len(),
        !s[i],
    ensures
        count_true(s.update(i, true)) == count_true(s) + 1,
    decreases s.len(),
{
    if i == s.len() - 1 {
        assert(s.update(i, true).drop_last() =~= s.drop_last());
    } else {
        lemma_count_true_set(s.drop_last(), i);
        assert(s.update(i, true).drop_last() =~= s.drop_last().update(i, true));
    }
}

/// A sequence of `true` entries counts its length.
pub proof fn lemma_count_true_all(s: Seq<bool>)
    requires
        forall|i: int| 0 <= i < s.len() ==> #[trigger] s[i],
    ensures
        count_true(s) == s.len(),
    decreases s.len(),
{
    if s.len() > 0 {
        assert forall|i: int| 0 <= i < s.drop_last().len() implies #[trigger] s.drop_last()[i] by {
            assert(s.drop_last()[i] == s[i]);
        }
        lemma_count_true_all(s.drop_last());
    }
}

/// The count is at most the length, and reaches it only when every entry is `true`.
pub proof fn lemma_count_true_full(s: Seq<bool>)
    ensures
        count_true(s) <= s.len(),
        count_true(s) == s.len() ==> forall|i: int| 0 <= i < s.len() ==> #[trigger] s[i],
    decreases s.len(),
{
    if s.len() > 0 {
        lemma_count_true_full(s.drop_last());
        if count_true(s) == s.len() {
            assert forall|i: int| 0 <= i < s.len() implies #[trigger] s[i] by {
                if i < s.len() - 1 {
                    assert(s[i] == s.drop_last()[i]);
                }
            }
        }
    }
}

/// The cell (x, y) is on the canvas and colored.
pub open spec fn visited_at(img: CanvasView, visited: Seq<bool>, x: int, y: int) -> bool {
    img.in_bounds(x, y) && visited[img.index_of(x, y)]
}

/// What the cell (x, y) adds to channel c (0 to 2) of its neighbours' sum when it is
/// colored; for c == 3, what it adds to their number.
pub open spec fn neighbour_term(img: CanvasView, visited: Seq<bool>, x: int, y: int, c: int) -> nat {
    if visited_at(img, visited, x, y) {
        if c < 3 { img.pixel(x, y)[c] as nat } else { 1 }
    } else {
        0
    }
}

/// Sum of `neighbour_term` over the four diagonal neighbours of (x, y): the cells that
/// share neither coordinate with it.
pub open spec fn diagonal_sum(img: CanvasView, visited: Seq<bool>, x: int, y: int, c: int) -> nat {
    neighbour_term(img, visited, x - 1, y - 1, c) + neighbour_term(img, visited, x - 1, y + 1, c)
        + neighbour_term(img, visited, x + 1, y - 1, c) + neighbour_term(img, visited, x + 1, y + 1, c)
}

/// One less, but not below zero.
pub open spec fn darken(v: int) -> u8 {
    if v >= 1 { (v - 1) as u8 } else { 0 }
}

/// The color the cell (x, y) takes: the mean of its colored diagonal neighbours, each
/// channel rounded down and darkened by one; `None` when no diagonal neighbour is
/// colored.
pub open spec fn new_color(img: CanvasView, visited: Seq<bool>, x: int, y: int) -> Option<Color> {
    let n = diagonal_sum(img, visited, x, y, 3);
    if n == 0 {
        None
    } else {
        Some(
            [
                darken((diagonal_sum(img, visited, x, y, 0) / n) as int),
                darken((diagonal_sum(img, visited, x, y, 1) / n) as int),
                darken((diagonal_sum(img, visited, x, y, 2) / n) as int),
            ],
        )
    }
}

/// The new color of a cell depends only on the colors of colored cells.
pub proof fn lemma_new_color_reads_visited(a: CanvasView, b: CanvasView, visited: Seq<bool>, x: int, y: int)
    requires
        a.width == b.width,
        a.height == b.height,
        forall|px: int, py: int| visited_at(a, visited, px, py) ==> #[trigger] a.pixel(px, py) == b.pixel(px, py),
    ensures
        new_color(a, visited, x, y) == new_color(b, visited, x, y),
{
    assert(visited_at(a, visited, x - 1, y - 1) ==> a.pixel(x - 1, y - 1) == b.pixel(x - 1, y - 1));
    assert(visited_at(a, visited, x - 1, y + 1) ==> a.pixel(x - 1, y + 1) == b.pixel(x - 1, y + 1));
    assert(visited_at(a, visited, x + 1, y - 1) ==> a.pixel(x + 1, y - 1) == b.pixel(x + 1, y - 1));
    assert(visited_at(a, visited, x + 1, y + 1) ==> a.pixel(x + 1, y + 1) == b.pixel(x + 1, y + 1));
}

/// The contribution of the cell (x, y), if it lies on the canvas, to its neighbours'
/// sums: its channels and one, when it is colored.
fn neighbour_entry(x: i64, y: i64, img: &Canvas, visited: &Vec<bool>) -> (r: (u32, u32, u32, u32))
    requires
        img@.wf(),
        visited@.len() == img@.pixels.len(),
    ensures
        r.0 == neighbour_term(img@, visited@, x as int, y as int, 0),
        r.1 == neighbour_term(img@, visited@, x as int, y as int, 1),
        r.2 == neighbour_term(img@, visited@, x as int, y as int, 2),
        r.3 == neighbour_term(img@, visited@, x as int, y as int, 3),
{
    let width: u32 = img.width();
    let height: u32 = img.height();
    if x < 0 || y < 0 || x >= width as i64 || y >= height as i64 {
        return (0, 0, 0, 0);
    }
    proof {
        lemma_index_in_range(width as nat, height as nat, x as int, y as int);
    }
    let i: usize = y as usize * width as usize + x as usize;
    if visited[i] {
        let c: Color = img.get_pixel(x as u32, y as u32);
        (c[0] as u32, c[1] as u32, c[2] as u32, 1)
    } else {
        (0, 0, 0, 0)
    }
}

/// The new color of the cell (x, y), if at least one diagonal neighbour is colored.
pub fn get_new_color(x: u32, y: u32, img: &Canvas, visited: &Vec<bool>) -> (r: Option<Color>)
    requires
        visited@.len() == img@.pixels.len(),
        img@.wf(),
    ensures
        r == new_color(img@, visited@, x as int, y as int),
{
    let xi: i64 = x as i64;
    let yi: i64 = y as i64;
    let a = neighbour_entry(xi - 1, yi - 1, img, visited);
    let b = neighbour_entry(xi - 1, yi + 1, img, visited);
    let c = neighbour_entry(xi + 1, yi - 1, img, visited);
    let d = neighbour_entry(xi + 1, yi + 1, img, visited);
    let n: u32 = a.3 + b.3 + c.3 + d.3;
    if n == 0 {
        return None;
    }
    let red: u32 = a.0 + b.0 + c.0 + d.0;
    let green: u32 = a.1 + b.1 + c.1 + d.1;
    let blue: u32 = a.2 + b.2 + c.2 + d.2;
    proof {
        assert(red / n <= 255) by (nonlinear_arith)
            requires
                red <= 255 * n,
                n > 0,
        ;
        assert(green / n <= 255) by (nonlinear_arith)
            requires
                green <= 255 * n,
                n > 0,
        ;
        assert(blue / n <= 255) by (nonlinear_arith)
            requires
                blue <= 255 * n,
                n > 0,
        ;
    }
    let mr: u32 = red / n;
    let mg: u32 = green / n;
    let mb: u32 = blue / n;
    Some(
        [
            if mr >= 1 { (mr - 1) as u8 } else { 0 },
            if mg >= 1 { (mg - 1) as u8 } else { 0 },
            if mb >= 1 { (mb - 1) as u8 } else { 0 },
        ],
    )
}

/// What one pass does to the cell (x, y): a colored cell keeps its color; an uncolored
/// cell with no colored diagonal neighbour stays as it was; any other uncolored cell
/// either takes its new color and is marked colored, or is skipped and stays as it was.
pub open spec fn cell_outcome(
    img: CanvasView,
    visited: Seq<bool>,
    img2: CanvasView,
    visited2: Seq<bool>,
    x: int,
    y: int,
) -> bool {
    let i = img.index_of(x, y);
    if visited[i] {
        visited2[i] && img2.pixel(x, y) == img.pixel(x, y)
    } else {
        match new_color(img, visited, x, y) {
            None => !visited2[i] && img2.pixel(x, y) == img.pixel(x, y),
            Some(c) => (visited2[i] && img2.pixel(x, y) == c) || (!visited2[i] && img2.pixel(x, y) == img.pixel(
                x,
                y,
            )),
        }
    }
}

/// One pass over every cell, with colors committed only at its end: each cell sees
/// the colors of cells colored in earlier passes only.
pub open spec fn pass_outcome(img: CanvasView, visited: Seq<bool>, img2: CanvasView, visited2: Seq<bool>) -> bool {
    &&& img2.width == img.width
    &&& img2.height == img.height
    &&& img2.wf()
    &&& visited2.len() == visited.len()
    &&& forall|x: int, y: int| img.in_bounds(x, y) ==> #[trigger] cell_outcome(img, visited, img2, visited2, x, y)
}

/// Some uncolored cell has a colored diagonal neighbour.
pub open spec fn can_grow(img: CanvasView, visited: Seq<bool>) -> bool {
    exists|x: int, y: int|
        img.in_bounds(x, y) && !visited[img.index_of(x, y)] && (#[trigger] new_color(img, visited, x, y)).is_some()
}

/// Some uncolored cell before (x, y) in column-major order has a colored diagonal
/// neighbour.
pub open spec fn can_grow_before(img: CanvasView, visited: Seq<bool>, x: int, y: int) -> bool {
    exists|px: int, py: int|
        img.in_bounds(px, py) && cell_before(px, py, x, y) && !visited[img.index_of(px, py)] && (
        #[trigger] new_color(img, visited, px, py)).is_some()
}

/// The cell (px, py) comes before (x, y) in column-major order.
pub open spec fn cell_before(px: int, py: int, x: int, y: int) -> bool {
    px < x || (px == x && py < y)
}

/// The cells colored before pass `k`, given when each cell was colored.
pub open spec fn colored_before(pass_of: Seq<int>, k: int) -> Seq<bool> {
    Seq::new(pass_of.len(), |i: int| 0 <= pass_of[i] < k)
}

/// The cell (x, y) holds the color that its step gave it: a seed color if it was
/// seeded, otherwise the new color over the cells colored before its pass, with the
/// colors they hold.
pub open spec fn colored_as(img: CanvasView, pass_of: Seq<int>, x: int, y: int) -> bool {
    let k = pass_of[img.index_of(x, y)];
    if k == 0 {
        is_seed_color(img.pixel(x, y))
    } else {
        new_color(img, colored_before(pass_of, k), x, y) == Some(img.pixel(x, y))
    }
}

/// A seed color: every channel in [128, 255].
pub open spec fn is_seed_color(c: Color) -> bool {
    c[0] >= 128 && c[1] >= 128 && c[2] >= 128
}

/// A run gives up after this many passes.
pub const MAX_PASSES: u64 = 0xffff_ffff_ffff_ffff;

/// Canvas pixels per seed cell.
pub const PIXELS_PER_SEED: u64 = 20000;

/// The flood-growth process. A pass skips each cell it could color with probability
/// `skip_numerator / skip_denominator`, to retry it in a later pass.
pub struct CellularOne {
    all_visited: bool,
    num_visited: usize,
    skip_numerator: u32,
    skip_denominator: u32,
    visited: Vec<bool>,
    passes: u64,
    pass_index: Ghost<Seq<int>>,
}

impl Default for CellularOne {
    fn default() -> (c: CellularOne)
        ensures
            c.wf(),
            !c.all_visited(),
            c.num_visited() == 0,
            c.skip_numerator() == 1,
            c.skip_denominator() == 100,
    {
        CellularOne {
            all_visited: false,
            num_visited: 0,
            skip_numerator: 1,
            skip_denominator: 100,
            visited: Vec::new(),
            passes: 0,
            pass_index: Ghost(Seq::empty()),
        }
    }
}

impl CellularOne {
    /// Every cell has been colored.
    pub closed spec fn all_visited(&self) -> bool {
        self.all_visited
    }

    /// Number of colored cells.
    pub closed spec fn num_visited(&self) -> nat {
        self.num_visited as nat
    }

    /// The visitation grid of the last run, row by row: whether each cell was colored.
    pub closed spec fn visited_cells(&self) -> Seq<bool> {
        self.visited@
    }

    /// Number of passes of the last run.
    pub closed spec fn passes(&self) -> nat {
        self.passes as nat
    }

    /// For each cell of the last run, row by row, when it was colored: 0 for a seed,
    /// `k` for pass `k`, -1 for a cell left uncolored.
    pub closed spec fn pass_of(&self) -> Seq<int> {
        self.pass_index@
    }

    /// The visitation grid of the last run, row by row.
    pub fn visited_grid(&self) -> (v: &Vec<bool>)
        ensures
            v@ == self.visited_cells(),
    {
        &self.visited
    }

    pub closed spec fn skip_numerator(&self) -> nat {
        self.skip_numerator as nat
    }

    pub closed spec fn skip_denominator(&self) -> nat {
        self.skip_denominator as nat
    }

    /// The skip probability is a fraction in [0, 1].
    pub open spec fn wf(&self) -> bool {
        0 < self.skip_denominator() && self.skip_numerator() <= self.skip_denominator()
    }

    /// Colors the cell (x, y) with `color` and marks it colored.
    pub fn place_seed(&mut self, img: &mut Canvas, visited: &mut Vec<bool>, x: u32, y: u32, color: Color)
        requires
            old(img)@.in_bounds(x as int, y as int),
            old(visited)@.len() == old(img)@.pixels.len(),
            old(self).num_visited() == count_true(old(visited)@),
        ensures
            final(img)@ == old(img)@.with_pixel(x as int, y as int, color),
            final(img)@.width == old(img)@.width,
            final(img)@.height == old(img)@.height,
            final(img)@.wf(),
            forall|px: int, py: int|
                old(img)@.in_bounds(px, py) ==> #[trigger] final(img)@.pixel(px, py) == if px == x && py == y {
                    color
                } else {
                    old(img)@.pixel(px, py)
                },
            final(visited)@ == old(visited)@.update(old(img)@.index_of(x as int, y as int), true),
            final(self).num_visited() == count_true(final(visited)@),
            final(self).all_visited() == old(self).all_visited(),
            final(self).skip_numerator() == old(self).skip_numerator(),
            final(self).skip_denominator() == old(self).skip_denominator(),
            final(self).visited_cells() == old(self).visited_cells(),
            final(self).passes() == old(self).passes(),
    {
        let width: u32 = img.width();
        let height: u32 = img.height();
        img.put_pixel(x, y, color);
        proof {
            lemma_index_in_range(width as nat, height as nat, x as int, y as int);
        }
        let i: usize = y as usize * width as usize + x as usize;
        if !visited[i] {
            proof {
                lemma_count_true_set(visited@, i as int);
                lemma_count_true_full(visited@.update(i as int, true));
            }
            self.num_visited = self.num_visited + 1;
            visited.set(i, true);
        } else {
            proof {
                assert(visited@ =~= visited@.update(i as int, true));
            }
        }
    }

    /// Colors `num_points` random cells with random light colors (each channel in
    /// [128, 255]) and marks them colored: for each, draws x, y and the three channels,
    /// in that order, and places the seed with `place_seed`.
    pub fn populate_points(
        &mut self,
        rng: &mut ChaCha8Rng,
        num_points: usize,
        img: &mut Canvas,
        visited: &mut Vec<bool>,
    )
        requires
            old(self).wf(),
            old(img)@.width > 0,
            old(img)@.height > 0,
            old(visited)@.len() == old(img)@.pixels.len(),
            old(self).num_visited() == count_true(old(visited)@),
        ensures
            final(self).wf(),
            final(self).skip_numerator() == old(self).skip_numerator(),
            final(self).skip_denominator() == old(self).skip_denominator(),
            final(self).all_visited() == old(self).all_visited(),
            final(self).num_visited() == count_true(final(visited)@),
            count_true(final(visited)@) <= count_true(old(visited)@) + num_points,
            final(visited)@.len() == old(visited)@.len(),
            final(img)@.width == old(img)@.width,
            final(img)@.height == old(img)@.height,
            final(img)@.wf(),
            forall|i: int| 0 <= i < old(visited)@.len() && old(visited)@[i] ==> #[trigger] final(visited)@[i],
            forall|x: int, y: int|
                old(img)@.in_bounds(x, y) ==> #[trigger] final(img)@.pixel(x, y) == old(img)@.pixel(x, y) || (
                final(visited)@[old(img)@.index_of(x, y)] && is_seed_color(final(img)@.pixel(x, y))),
            forall|x: int, y: int|
                old(img)@.in_bounds(x, y) && final(visited)@[old(img)@.index_of(x, y)] && !old(
                    visited,
                )@[old(img)@.index_of(x, y)] ==> is_seed_color(#[trigger] final(img)@.pixel(x, y)),
            num_points > 0 ==> exists|x: int, y: int|
                old(img)@.in_bounds(x, y) && final(visited)@[old(img)@.index_of(x, y)] && is_seed_color(
                    #[trigger] final(img)@.pixel(x, y),
                ),
    {
        let width: u32 = img.width();
        let height: u32 = img.height();
        let ghost img0 = img@;
        let ghost vis0 = visited@;
        for k in 0..num_points
            invariant
                self.wf(),
                self.skip_numerator() == old(self).skip_numerator(),
                self.skip_denominator() == old(self).skip_denominator(),
                self.all_visited() == old(self).all_visited(),
                width == img0.width,
                height == img0.height,
                width > 0,
                height > 0,
                img@.width == img0.width,
                img@.height == img0.height,
                img@.wf(),
                img0.wf(),
                img0.width * img0.height <= usize::MAX,
                visited@.len() == vis0.len(),
                vis0.len() == img0.pixels.len(),
                self.num_visited() == count_true(visited@),
                count_true(visited@) <= count_true(vis0) + k,
                forall|i: int| 0 <= i < vis0.len() && vis0[i] ==> #[trigger] visited@[i],
                forall|x: int, y: int|
                    img0.in_bounds(x, y) ==> #[trigger] img@.pixel(x, y) == img0.pixel(x, y) || (
                    visited@[img0.index_of(x, y)] && is_seed_color(img@.pixel(x, y))),
                forall|x: int, y: int|
                    img0.in_bounds(x, y) && visited@[img0.index_of(x, y)] && !vis0[img0.index_of(x, y)]
                        ==> is_seed_color(#[trigger] img@.pixel(x, y)),
                k > 0 ==> exists|x: int, y: int|
                    img0.in_bounds(x, y) && visited@[img0.index_of(x, y)] && is_seed_color(#[trigger] img@.pixel(x, y)),
        {
            let x: u32 = draw_u32(rng, 0, width);
            let y: u32 = draw_u32(rng, 0, height);
            let color: Color = [draw_u8(rng, 0, 128) + 128, draw_u8(rng, 0, 128) + 128, draw_u8(rng, 0, 128) + 128];
            let ghost before = img@;
            let ghost vis_before = visited@;
            self.place_seed(img, visited, x, y, color);
            proof {
                lemma_index_in_range(width as nat, height as nat, x as int, y as int);
                let i = img0.index_of(x as int, y as int);
                if !vis_before[i] {
                    lemma_count_true_set(vis_before, i);
                } else {
                    assert(visited@ =~= vis_before);
                }
                assert forall|px: int, py: int| img0.in_bounds(px, py) implies {
                    &&& #[trigger] img@.pixel(px, py) == img0.pixel(px, py) || (visited@[img0.index_of(px, py)]
                        && is_seed_color(img@.pixel(px, py)))
                    &&& visited@[img0.index_of(px, py)] && !vis0[img0.index_of(px, py)] ==> is_seed_color(
                        img@.pixel(px, py),
                    )
                } by {
                    lemma_index_in_range(width as nat, height as nat, px, py);
                    if px != x || py != y {
                        if img0.index_of(px, py) == i {
                            lemma_index_injective(width as nat, px, py, x as int, y as int);
                        }
                        assert(visited@[img0.index_of(px, py)] == vis_before[img0.index_of(px, py)]);
                        assert(img@.pixel(px, py) == before.pixel(px, py));
                    }
                }
                assert(img0.in_bounds(x as int, y as int) && visited@[img0.index_of(x as int, y as int)]
                    && is_seed_color(img@.pixel(x as int, y as int)));
            }
        }
    }
}

impl CellularOne {
    /// One pass: every uncolored cell with a colored diagonal neighbour takes its new
    /// color, unless the random skip passes it over; the cells colored in this pass
    /// count as colored only once the pass is over. Returns whether any cell could be
    /// colored.
    pub fn iterate_once(&mut self, rng: &mut ChaCha8Rng, img: &mut Canvas, visited: &mut Vec<bool>) -> (grew:
        bool)
        requires
            old(self).wf(),
            old(visited)@.len() == old(img)@.pixels.len(),
            old(self).num_visited() == count_true(old(visited)@),
        ensures
            final(self).wf(),
            final(self).skip_numerator() == old(self).skip_numerator(),
            final(self).skip_denominator() == old(self).skip_denominator(),
            final(self).num_visited() == count_true(final(visited)@),
            final(self).num_visited() >= old(self).num_visited(),
            final(self).all_visited() == (old(self).all_visited() || final(self).num_visited() >= old(
                img,
            )@.pixels.len()),
            pass_outcome(old(img)@, old(visited)@, final(img)@, final(visited)@),
            grew == can_grow(old(img)@, old(visited)@),
    {
        let width: u32 = img.width();
        let height: u32 = img.height();
        let ghost img0 = img@;
        let ghost vis0 = visited@;
        let n: usize = visited.len();
        let mut next: Vec<bool> = Vec::new();
        for i in 0..n
            invariant
                n == vis0.len(),
                vis0 == visited@,
                next@ =~= vis0.subrange(0, i as int),
        {
            next.push(visited[i]);
        }
        proof {
            assert(next@ =~= vis0);
        }
        let mut num_new: usize = 0;
        let mut grew: bool = false;
        let mut x: u32 = 0;
        while x < width
            invariant
                x <= width,
                self.wf(),
                self.skip_numerator() == old(self).skip_numerator(),
                self.skip_denominator() == old(self).skip_denominator(),
                self.num_visited() == old(self).num_visited(),
                self.all_visited() == old(self).all_visited(),
                width == img0.width,
                height == img0.height,
                img0.wf(),
                img0.width * img0.height <= usize::MAX,
                vis0 == visited@,
                vis0.len() == img0.pixels.len(),
                img@.width == img0.width,
                img@.height == img0.height,
                img@.wf(),
                next@.len() == vis0.len(),
                count_true(next@) == count_true(vis0) + num_new,
                forall|px: int, py: int|
                    img0.in_bounds(px, py) && cell_before(px, py, x as int, 0) ==> #[trigger] cell_outcome(
                        img0,
                        vis0,
                        img@,
                        next@,
                        px,
                        py,
                    ),
                forall|px: int, py: int|
                    img0.in_bounds(px, py) && !cell_before(px, py, x as int, 0) ==> #[trigger] img@.pixel(px, py)
                        == img0.pixel(px, py) && next@[img0.index_of(px, py)] == vis0[img0.index_of(px, py)],
                forall|px: int, py: int|
                    visited_at(img0, vis0, px, py) ==> #[trigger] img@.pixel(px, py) == img0.pixel(px, py),
                grew == can_grow_before(img0, vis0, x as int, 0),
            decreases width - x,
        {
            let mut y: u32 = 0;
            while y < height
                invariant
                    y <= height,
                    self.wf(),
                    self.skip_numerator() == old(self).skip_numerator(),
                    self.skip_denominator() == old(self).skip_denominator(),
                    self.num_visited() == old(self).num_visited(),
                    self.all_visited() == old(self).all_visited(),
                    x < width,
                    width == img0.width,
                    height == img0.height,
                    img0.wf(),
                    img0.width * img0.height <= usize::MAX,
                    vis0 == visited@,
                    vis0.len() == img0.pixels.len(),
                    img@.width == img0.width,
                    img@.height == img0.height,
                    img@.wf(),
                    next@.len() == vis0.len(),
                    count_true(next@) == count_true(vis0) + num_new,
                    forall|px: int, py: int|
                        img0.in_bounds(px, py) && cell_before(px, py, x as int, y as int) ==> #[trigger] cell_outcome(
                            img0,
                            vis0,
                            img@,
                            next@,
                            px,
                            py,
                        ),
                    forall|px: int, py: int|
                        img0.in_bounds(px, py) && !cell_before(px, py, x as int, y as int) ==> #[trigger] img@.pixel(
                            px,
                            py,
                        ) == img0.pixel(px, py) && next@[img0.index_of(px, py)] == vis0[img0.index_of(px, py)],
                    forall|px: int, py: int|
                        visited_at(img0, vis0, px, py) ==> #[trigger] img@.pixel(px, py) == img0.pixel(px, py),
                    grew == can_grow_before(img0, vis0, x as int, y as int),
                decreases height - y,
            {
                proof {
                    lemma_index_in_range(width as nat, height as nat, x as int, y as int);
                }
                let i: usize = y as usize * width as usize + x as usize;
                proof {
                    assert(img@.pixel(x as int, y as int) == img0.pixel(x as int, y as int));
                    assert(next@[i as int] == vis0[i as int]);
                }
                let ghost img_before = img@;
                let ghost next_before = next@;
                let ghost grew_before = grew;
                if !visited[i] {
                    proof {
                        lemma_new_color_reads_visited(img@, img0, vis0, x as int, y as int);
                    }
                    match get_new_color(x, y, img, visited) {
                        Some(c) => {
                            grew = true;
                            if !draw_ratio(rng, self.skip_numerator, self.skip_denominator) {
                                img.put_pixel(x, y, c);
                                proof {
                                    lemma_count_true_set(next@, i as int);
                                    lemma_count_true_full(next@.update(i as int, true));
                                }
                                next.set(i, true);
                                num_new = num_new + 1;
                            }
                        },
                        None => {},
                    }
                }
                proof {
                    assert forall|px: int, py: int|
                        #![trigger cell_outcome(img0, vis0, img@, next@, px, py)]
                        #![trigger img@.pixel(px, py)]
                        img0.in_bounds(px, py) implies {
                        &&& cell_before(px, py, x as int, y + 1) ==> cell_outcome(
                            img0,
                            vis0,
                            img@,
                            next@,
                            px,
                            py,
                        )
                        &&& !cell_before(px, py, x as int, y + 1) ==> img@.pixel(px, py) == img0.pixel(px, py)
                            && next@[img0.index_of(px, py)] == vis0[img0.index_of(px, py)]
                        &&& visited_at(img0, vis0, px, py) ==> img@.pixel(px, py) == img0.pixel(px, py)
                    } by {
                        lemma_index_in_range(width as nat, height as nat, px, py);
                        if px != x || py != y {
                            if img0.index_of(px, py) == i {
                                lemma_index_injective(width as nat, px, py, x as int, y as int);
                            }
                            assert(img@.pixel(px, py) == img_before.pixel(px, py));
                            assert(next@[img0.index_of(px, py)] == next_before[img0.index_of(px, py)]);
                            if cell_before(px, py, x as int, y as int) {
                                assert(cell_outcome(img0, vis0, img_before, next_before, px, py));
                            } else {
                                assert(img_before.pixel(px, py) == img0.pixel(px, py));
                            }
                        }
                    }
                    if grew && !grew_before {
                        assert(img0.in_bounds(x as int, y as int) && cell_before(x as int, y as int, x as int, y + 1)
                            && !vis0[img0.index_of(x as int, y as int)] && new_color(
                            img0,
                            vis0,
                            x as int,
                            y as int,
                        ).is_some());
                    }
                    if can_grow_before(img0, vis0, x as int, y + 1) && !grew {
                        let (px, py) = choose|px: int, py: int|
                            img0.in_bounds(px, py) && cell_before(px, py, x as int, y + 1) && !vis0[img0.index_of(
                                px,
                                py,
                            )] && (#[trigger] new_color(img0, vis0, px, py)).is_some();
                        if px == x && py == y {
                            assert(new_color(img@, vis0, x as int, y as int) == new_color(img0, vis0, x as int, y as int));
                        } else {
                            assert(cell_before(px, py, x as int, y as int));
                        }
                    }
                    if grew_before {
                        let (px, py) = choose|px: int, py: int|
                            img0.in_bounds(px, py) && cell_before(px, py, x as int, y as int) && !vis0[img0.index_of(
                                px,
                                py,
                            )] && (#[trigger] new_color(img0, vis0, px, py)).is_some();
                        assert(cell_before(px, py, x as int, y + 1));
                    }
                }
                y = y + 1;
            }
            proof {
                assert forall|px: int, py: int| img0.in_bounds(px, py) && cell_before(px, py, x + 1, 0) implies #[trigger] cell_outcome(
                    img0,
                    vis0,
                    img@,
                    next@,
                    px,
                    py,
                ) by {
                    assert(cell_before(px, py, x as int, height as int));
                }
                assert forall|px: int, py: int| img0.in_bounds(px, py) && !cell_before(px, py, x + 1, 0) implies #[trigger] img@.pixel(
                    px,
                    py,
                ) == img0.pixel(px, py) && next@[img0.index_of(px, py)] == vis0[img0.index_of(px, py)] by {
                    assert(!cell_before(px, py, x as int, height as int));
                }
                if grew {
                    let (px, py) = choose|px: int, py: int|
                        img0.in_bounds(px, py) && cell_before(px, py, x as int, height as int) && !vis0[img0.index_of(
                            px,
                            py,
                        )] && (#[trigger] new_color(img0, vis0, px, py)).is_some();
                    assert(cell_before(px, py, x + 1, 0));
                }
                if can_grow_before(img0, vis0, x + 1, 0) {
                    let (px, py) = choose|px: int, py: int|
                        img0.in_bounds(px, py) && cell_before(px, py, x + 1, 0) && !vis0[img0.index_of(px, py)] && (
                        #[trigger] new_color(img0, vis0, px, py)).is_some();
                    assert(cell_before(px, py, x as int, height as int));
                }
            }
            x = x + 1;
        }
        proof {
            lemma_count_true_full(next@);
            if grew {
                let (px, py) = choose|px: int, py: int|
                    img0.in_bounds(px, py) && cell_before(px, py, width as int, 0) && !vis0[img0.index_of(px, py)] && (
                    #[trigger] new_color(img0, vis0, px, py)).is_some();
                assert(can_grow(img0, vis0));
            }
            if can_grow(img0, vis0) {
                let (px, py) = choose|px: int, py: int|
                    img0.in_bounds(px, py) && !vis0[img0.index_of(px, py)] && (#[trigger] new_color(
                        img0,
                        vis0,
                        px,
                        py,
                    )).is_some();
                assert(cell_before(px, py, width as int, 0));
            }
        }
        *visited = next;
        self.num_visited = self.num_visited + num_new;
        if self.num_visited >= visited.len() {
            self.all_visited = true;
        }
        grew
    }
}

impl CellularOne {
    /// Runs the process: seeds one random light cell per 20000 canvas pixels (at least
    /// two), then repeats passes until every cell is colored. Fails on an empty canvas,
    /// when a pass finds no uncolored cell with a colored diagonal neighbour while some
    /// cell is still uncolored (growth along diagonals never reaches it), and after
    /// `MAX_PASSES` passes.
    pub fn build(&mut self, rng: &mut ChaCha8Rng, img: &mut Canvas) -> (r: Result<(), String>)
        requires
            old(self).wf(),
        ensures
            final(self).wf(),
            final(img)@.width == old(img)@.width,
            final(img)@.height == old(img)@.height,
            final(img)@.wf(),
            (old(img)@.width == 0 || old(img)@.height == 0) ==> r.is_err() && final(img)@ == old(img)@,
            r.is_ok() ==> {
                &&& final(self).all_visited()
                &&& final(self).num_visited() == old(img)@.pixels.len()
                &&& final(self).visited_cells().len() == old(img)@.pixels.len()
                &&& forall|i: int| 0 <= i < old(img)@.pixels.len() ==> #[trigger] final(self).visited_cells()[i]
                &&& final(self).pass_of().len() == old(img)@.pixels.len()
                &&& forall|x: int, y: int|
                    old(img)@.in_bounds(x, y) ==> final(self).pass_of()[old(img)@.index_of(x, y)] >= 0
                        && #[trigger] colored_as(final(img)@, final(self).pass_of(), x, y)
            },
            old(img)@.width * old(img)@.height == 1 ==> r.is_ok(),
            r.is_err() && old(img)@.width > 0 && old(img)@.height > 0 ==> {
                &&& count_true(final(self).visited_cells()) >= 1
                &&& !final(self).all_visited()
                &&& final(self).visited_cells().len() == old(img)@.pixels.len()
                &&& exists|i: int| 0 <= i < old(img)@.pixels.len() && !#[trigger] final(self).visited_cells()[i]
                &&& !can_grow(final(img)@, final(self).visited_cells()) || final(self).passes() == MAX_PASSES
            },
    {
        let width: u32 = img.width();
        let height: u32 = img.height();
        if width == 0 || height == 0 {
            return Err("the canvas has no pixel".to_owned());
        }
        let n: usize = width as usize * height as usize;
        let mut visited: Vec<bool> = Vec::new();
        for i in 0..n
            invariant
                visited@.len() == i,
                count_true(visited@) == 0,
                forall|j: int| 0 <= j < i ==> !#[trigger] visited@[j],
        {
            proof {
                assert(visited@.push(false).drop_last() =~= visited@);
            }
            visited.push(false);
        }
        self.all_visited = false;
        self.num_visited = 0;
        let area: u64 = width as u64 * height as u64 / PIXELS_PER_SEED;
        let num_points: usize = if area > 2 { area as usize } else { 2 };
        let ghost vis_empty = visited@;
        self.populate_points(rng, num_points, img, &mut visited);
        proof {
            let (x, y) = choose|x: int, y: int|
                old(img)@.in_bounds(x, y) && visited@[old(img)@.index_of(x, y)] && is_seed_color(
                    #[trigger] img@.pixel(x, y),
                );
            lemma_index_in_range(width as nat, height as nat, x, y);
            lemma_count_true_pos(visited@, old(img)@.index_of(x, y));
        }
        if self.num_visited >= n {
            self.all_visited = true;
        }
        let ghost mut pass_of: Seq<int> = Seq::new(n as nat, |i: int| if visited@[i] { 0int } else { -1int });
        proof {
            assert forall|x: int, y: int| old(img)@.in_bounds(x, y) && visited@[old(img)@.index_of(x, y)] implies #[trigger] colored_as(
                img@,
                pass_of,
                x,
                y,
            ) by {
                lemma_index_in_range(width as nat, height as nat, x, y);
                assert(!vis_empty[old(img)@.index_of(x, y)]);
            }
        }
        let mut passes: u64 = 0;
        while !self.all_visited
            invariant
                self.wf(),
                n == old(img)@.width * old(img)@.height,
                n == old(img)@.pixels.len(),
                n == visited@.len(),
                visited@.len() == img@.pixels.len(),
                img@.width == old(img)@.width,
                img@.height == old(img)@.height,
                img@.wf(),
                self.num_visited() == count_true(visited@),
                self.num_visited() >= 1,
                self.all_visited() == (self.num_visited() >= n),
                width == old(img)@.width,
                height == old(img)@.height,
                pass_of.len() == n,
                forall|i: int| 0 <= i < n ==> (#[trigger] visited@[i] ==> 0 <= pass_of[i] <= passes),
                forall|i: int| 0 <= i < n ==> (!#[trigger] visited@[i] ==> pass_of[i] == -1),
                forall|x: int, y: int|
                    old(img)@.in_bounds(x, y) && visited@[old(img)@.index_of(x, y)] ==> #[trigger] colored_as(
                        img@,
                        pass_of,
                        x,
                        y,
                    ),
            decreases MAX_PASSES - passes,
        {
            if passes == MAX_PASSES {
                proof {
                    lemma_uncolored_cell(visited@, self.num_visited());
                }
                self.visited = visited;
                self.passes = passes;
                return Err("the growth did not finish".to_owned());
            }
            let ghost img_before = img@;
            let ghost vis_before = visited@;
            let grew: bool = self.iterate_once(rng, img, &mut visited);
            passes = passes + 1;
            if !grew && !self.all_visited {
                proof {
                    lemma_uncolored_cell(visited@, self.num_visited());
                    assert(visited@ =~= vis_before) by {
                        assert forall|i: int| 0 <= i < vis_before.len() implies visited@[i] == vis_before[i] by {
                            let x = i % (img_before.width as int);
                            let y = i / (img_before.width as int);
                            lemma_cell_of_index(img_before, i);
                            assert(cell_outcome(img_before, vis_before, img@, visited@, x, y));
                            if !vis_before[i] {
                                assert(!can_grow(img_before, vis_before));
                                assert(new_color(img_before, vis_before, x, y).is_none());
                            }
                        }
                    }
                    assert forall|x: int, y: int| img@.in_bounds(x, y) && !visited@[img@.index_of(x, y)] implies (
                    #[trigger] new_color(img@, visited@, x, y)).is_none() by {
                        assert forall|px: int, py: int| visited_at(img@, visited@, px, py) implies #[trigger] img@.pixel(
                            px,
                            py,
                        ) == img_before.pixel(px, py) by {
                            assert(cell_outcome(img_before, vis_before, img@, visited@, px, py));
                        }
                        lemma_new_color_reads_visited(img@, img_before, visited@, x, y);
                        assert(img_before.in_bounds(x, y) && !vis_before[img_before.index_of(x, y)]);
                    }
                }
                self.visited = visited;
                self.passes = passes;
                return Err("some cells cannot be reached by diagonal growth".to_owned());
            }
            proof {
                let p = passes as int;
                let old_pass = pass_of;
                let new_pass = Seq::new(
                    n as nat,
                    |i: int| if visited@[i] && !vis_before[i] { p } else { old_pass[i] },
                );
                assert forall|i: int| 0 <= i < n && #[trigger] vis_before[i] implies visited@[i] by {
                    lemma_cell_of_index(img_before, i);
                    assert(cell_outcome(
                        img_before,
                        vis_before,
                        img@,
                        visited@,
                        i % (img_before.width as int),
                        i / (img_before.width as int),
                    ));
                }
                assert forall|x: int, y: int|
                    old(img)@.in_bounds(x, y) && visited@[old(img)@.index_of(x, y)] implies #[trigger] colored_as(
                    img@,
                    new_pass,
                    x,
                    y,
                ) by {
                    lemma_index_in_range(width as nat, height as nat, x, y);
                    let i = old(img)@.index_of(x, y);
                    assert(cell_outcome(img_before, vis_before, img@, visited@, x, y));
                    if vis_before[i] {
                        let k = old_pass[i];
                        assert(colored_as(img_before, old_pass, x, y));
                        if k != 0 {
                            let cb = colored_before(old_pass, k);
                            assert(colored_before(new_pass, k) =~= cb);
                            assert forall|px: int, py: int| visited_at(img_before, cb, px, py) implies #[trigger] img_before.pixel(
                                px,
                                py,
                            ) == img@.pixel(px, py) by {
                                lemma_index_in_range(width as nat, height as nat, px, py);
                                assert(cell_outcome(img_before, vis_before, img@, visited@, px, py));
                            }
                            lemma_new_color_reads_visited(img_before, img@, cb, x, y);
                        }
                    } else {
                        assert(colored_before(new_pass, p) =~= vis_before);
                        assert forall|px: int, py: int| visited_at(img_before, vis_before, px, py) implies #[trigger] img_before.pixel(
                            px,
                            py,
                        ) == img@.pixel(px, py) by {
                            assert(cell_outcome(img_before, vis_before, img@, visited@, px, py));
                        }
                        lemma_new_color_reads_visited(img_before, img@, vis_before, x, y);
                    }
                }
                assert forall|i: int| 0 <= i < n implies (#[trigger] visited@[i] ==> 0 <= new_pass[i] <= passes) && (
                !visited@[i] ==> new_pass[i] == -1) by {
                    if vis_before[i] {
                        assert(visited@[i]);
                    }
                }
                pass_of = new_pass;
            }
        }
        proof {
            lemma_count_true_full(visited@);
        }
        proof {
            assert forall|x: int, y: int|
                #![trigger colored_as(img@, pass_of, x, y)]
                #![trigger pass_of[old(img)@.index_of(x, y)]]
                old(img)@.in_bounds(x, y) implies pass_of[old(img)@.index_of(x, y)] >= 0 && colored_as(
                img@,
                pass_of,
                x,
                y,
            ) by {
                lemma_index_in_range(width as nat, height as nat, x, y);
                assert(visited@[old(img)@.index_of(x, y)]);
            }
        }
        self.visited = visited;
        self.passes = passes;
        self.pass_index = Ghost(pass_of);
        Ok(())
    }
}

/// A sequence with a `true` entry counts at least one.
proof fn lemma_count_true_pos(s: Seq<bool>, i: int)
    requires
        0 <= i < s.len(),
        s[i],
    ensures
        count_true(s) >= 1,
    decreases s.len(),
{
    if i < s.len() - 1 {
        assert(s.drop_last()[i] == s[i]);
        lemma_count_true_pos(s.drop_last(), i);
    }
}

/// With fewer `true` entries than entries, some entry is `false`.
proof fn lemma_uncolored_cell(s: Seq<bool>, count: nat)
    requires
        count == count_true(s),
        count < s.len(),
    ensures
        exists|i: int| 0 <= i < s.len() && !#[trigger] s[i],
{
    if forall|i: int| 0 <= i < s.len() ==> #[trigger] s[i] {
        lemma_count_true_all(s);
    }
}

/// Every row-major index of a canvas names one of its cells.
proof fn lemma_cell_of_index(img: CanvasView, i: int)
    requires
        img.wf(),
        0 <= i < img.pixels.len(),
    ensures
        img.in_bounds(i % (img.width as int), i / (img.width as int)),
        img.index_of(i % (img.width as int), i / (img.width as int)) == i,
{
    let w = img.width as int;
    assert(w > 0) by (nonlinear_arith)
        requires
            w == img.width,
            0 <= i < img.width * img.height,
    ;
    vstd::arithmetic::div_mod::lemma_fundamental_div_mod(i, w);
    vstd::arithmetic::div_mod::lemma_mod_pos_bound(i, w);
    let q = i / w;
    let r = i % w;
    assert(0 <= q < img.height) by (nonlinear_arith)
        requires
            i == w * q + r,
            0 <= r < w,
            0 <= i < w * img.height,
    ;
    assert(q * w + r == i) by (nonlinear_arith)
        requires
            i == w * q + r,
    ;
}

/// Growth stays within the channel range: each channel of a new color is the mean of
/// the colored diagonal neighbours' channel, exactly, less one and not below zero.
pub proof fn lemma_new_color_in_range(img: CanvasView, visited: Seq<bool>, x: int, y: int)
    ensures
        new_color(img, visited, x, y) matches Some(c) ==> forall|k: int|
            0 <= k < 3 ==> {
                let mean = diagonal_sum(img, visited, x, y, k) / diagonal_sum(img, visited, x, y, 3);
                &&& mean <= 255
                &&& #[trigger] c[k] as int == if mean >= 1 { mean - 1 } else { 0 }
            },
{
    let n = diagonal_sum(img, visited, x, y, 3);
    if n > 0 {
        assert forall|k: int| 0 <= k < 3 implies diagonal_sum(img, visited, x, y, k) / n <= 255 by {
            let t = diagonal_sum(img, visited, x, y, k);
            assert(t <= 255 * n);
            assert(t / n <= 255) by (nonlinear_arith)
                requires
                    t <= 255 * n,
                    n > 0,
            ;
        }
    }
}

} // verus!
