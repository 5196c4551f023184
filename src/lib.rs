//! Procedural wallpaper synthesis: growth processes, nearest-point fields and
//! block averaging over an RGB canvas, driven by a seedable random source.

use vstd::prelude::*;

pub mod canvas;
pub mod cellular_one;
pub mod islands;
pub mod lightning;
pub mod nearest_point;
pub mod patterns;
pub mod random;
pub mod squares;
pub mod squares_layer;
pub mod squares_one_direction;

pub use canvas::{Canvas, Color};
pub use cellular_one::CellularOne;
pub use islands::Islands;
pub use lightning::Lightning;
pub use nearest_point::{NearestPoint, Point};
pub use patterns::{Pattern, PatternColor, Patterns};
pub use squares::Squares;
pub use squares_layer::{MixMode, SquaresLayer};
pub use squares_one_direction::SquaresOneDirection;

verus! {

/// Sum of two integers that fit in a `u64` together.
pub fn add(left: u64, right: u64) -> (r: u64)
    requires
        left + right <= u64::MAX,
    ensures
        r == left + right,
{
    left + right
}

} // verus!
