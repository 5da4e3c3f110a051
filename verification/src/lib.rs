//! Regions of a vector drawing.
//!
//! A drawing is a network of lines, quadratics and cubics that may cross each
//! other. This library finds the places at which its segments cross, cuts the
//! segments there, walks the pieces round every region that they enclose, and
//! carries the style of each region over from one pass to the next while the
//! drawing is being edited.
//!
//! - `algo`: the search for the crossings of two segments, and the clean-up of
//!   the places at which a segment is cut.
//! - `dynamic`: the cut drawing, the boundaries of its regions, the background
//!   among them, and the matching of regions between two passes.
//! - `walk`: the walk along a table of links that closes the boundaries.
//! - `mesh`: the tables of points and segments of a drawing; `mesh::planar`: the
//!   planar graph of a drawing, with its crossings as points.
//! - `util`: what the library asks of kurbo and glam, which do the geometry.
//!
//! Lengths, areas and angles come from kurbo and glam as binary64 numbers. The
//! library compares them and holds them by their patterns, as whole numbers: of
//! two numbers that are not negative, the smaller has the smaller pattern. A
//! parameter along a segment is a whole number of steps of 2^-53, which is
//! exact for every window that the search for crossings halves down to.

use vstd::prelude::*;

pub mod algo;
pub mod dynamic;
pub mod mesh;
pub mod next_id;
pub mod util;
pub mod walk;

verus! {

/// Width of the drawing area.
pub const WIDTH: i32 = 900;

/// Height of the drawing area.
pub const HEIGHT: i32 = 600;

/// Ends of pieces that lie less than this apart are one corner of the drawing:
/// one and a half units, as a binary64 pattern. Of two lengths that are not
/// negative, the one with the smaller pattern is the shorter.
pub const MIN_SEPARATION: u64 = 0x3FF8_0000_0000_0000;

} // verus!
