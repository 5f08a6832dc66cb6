//! Single-pass cluster labelling of a randomly coloured square lattice.
//!
//! Rows are generated one at a time; every maximal region of equal, non-background
//! colour (under up/left adjacency) carries one cluster id, and the registry of
//! clusters is merged as regions turn out to be connected.

mod cell;
mod errors;
mod group;
mod square;

pub use crate::cell::{Cell, ID_LIMIT};
pub use crate::errors::PercolationError;
pub use crate::group::{MergeList, MergeListView};
pub use crate::square::{MCState, SquareSite};
