//! Screen-facing data shapes: a row/column pair and the interactive state.
//!
//! `Pos` serves both as a point coordinate and as a (row count, column count)
//! extent; it carries no invariant beyond what `usize` already gives.

use vstd::prelude::*;

use crate::database::Table;

verus! {

/// A pair of non-negative row/column numbers, used as a point coordinate or
/// as a (row count, column count) extent.
#[derive(Clone, Copy, Debug, Eq, PartialEq, Structural)]
pub struct Pos {
    pub row: usize,
    pub col: usize,
}

/// The state an interactive layer would hold: a cursor, the visible screen
/// extent, and the table on display. Unused by the ingestion core itself.
#[derive(Clone, Debug)]
pub struct AppState {
    pub cursor: Pos,
    pub screen_area: Pos,
    pub table: Table,
}

} // verus!
