//! Round-robin match grids kept in chat posts: the results of every pair of
//! players, written as glyph tokens in size-limited blocks, read back from
//! those blocks when nothing else is left, and changed by reports.
use vstd::prelude::*;

pub mod fam;
pub mod grid;
pub mod group;
pub mod intro;
pub mod matrix;
pub mod naming;
pub mod outcome;
pub mod recovery;
pub mod round_trip;
pub mod scan;
pub mod text;

verus! {

} // verus!
