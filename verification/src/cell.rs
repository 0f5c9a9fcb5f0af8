//! Cells (tiles of the puzzle) and the stickers on them, as the state calculations see them:
//! which master cell each belongs to and which cells neighbor it. Their shapes and where they
//! lie are the geometry's.
use vstd::prelude::*;

verus! {

/// Index into the puzzle's cells.
pub type CellId = usize;

/// Index into the puzzle's stickers.
pub type StickerId = usize;

#[derive(Clone, Debug)]
pub struct Cell {
    /// Only cells involved in state calculations (or all cells, for spherical puzzles) have
    /// stickers.
    pub stickers: Vec<StickerId>,
    /// The index of our master cell (ourselves if we're a master), used for state calculations.
    /// -1 for cells beyond the expected number of colors.
    pub index_of_master: i32,
    /// For slave cells, the master cell.
    pub master: Option<CellId>,
    /// For toggling ("lights on") puzzles: the master cells sharing an edge with us (masters
    /// are their own neighbors).
    pub neighbors: Vec<CellId>,
}

impl Cell {
    pub fn new() -> (r: Cell)
        ensures
            r.stickers@ == Seq::<StickerId>::empty(),
            r.index_of_master == -1,
            r.master is None,
            r.neighbors@ == Seq::<CellId>::empty(),
    {
        Cell { stickers: Vec::new(), index_of_master: -1, master: None, neighbors: Vec::new() }
    }

    pub fn is_master(&self) -> (r: bool)
        ensures
            r == self.master is None,
    {
        self.master.is_none()
    }
}

#[derive(Clone, Copy, Debug)]
pub struct Sticker {
    /// The index of the master cell this sticker belongs to (-1 for dropped cells).
    pub cell_index: i32,
    /// The index of this sticker within its cell.
    pub sticker_index: usize,
    /// Set while this sticker is moving in a twist animation.
    pub twisting: bool,
}

} // verus!
