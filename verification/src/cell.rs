//! The cells of a wave: undecided among patterns of the catalog, decided, or
//! contradictory.

use crate::tile::{copy_of, plain_values};
use vstd::prelude::*;

verus! {

/// The mathematical content of a cell of the wave.
pub enum CellView<T> {
    /// Decided: the cell shows this tile.
    Collapsed(T),
    /// Undecided: these entries of the catalog are still possible.
    SuperPos(Seq<usize>),
    /// Contradictory: no entry of the catalog was possible any more.
    Undefined,
}

/// A cell of the wave.
#[derive(Debug)]
pub enum WaveTile<T> {
    /// Decided: the cell shows this tile.
    Collapsed(T),
    /// Undecided: these entries of the catalog are still possible.
    SuperPos(Vec<usize>),
    /// Contradictory: no entry of the catalog was possible any more.
    Undefined,
}

impl<T> View for WaveTile<T> {
    type V = CellView<T>;

    open spec fn view(&self) -> CellView<T> {
        match self {
            WaveTile::Collapsed(tile) => CellView::Collapsed(*tile),
            WaveTile::SuperPos(candidates) => CellView::SuperPos(candidates@),
            WaveTile::Undefined => CellView::Undefined,
        }
    }
}

/// `copy` is a cell like `cell`: undecided among the same candidates, or contradictory as
/// it is, or showing a clone of its tile.
pub open spec fn cloned_cell<T: Clone>(cell: CellView<T>, copy: CellView<T>) -> bool {
    match cell {
        CellView::Collapsed(tile) => copy matches CellView::Collapsed(other) && cloned(tile, other),
        other => copy == other,
    }
}

impl<T: Clone> Clone for WaveTile<T> {
    fn clone(&self) -> (copy: Self)
        ensures
            cloned_cell(self@, copy@),
    {
        match self {
            WaveTile::Collapsed(tile) => WaveTile::Collapsed(tile.clone()),
            WaveTile::SuperPos(candidates) => {
                let copy = candidates.clone();
                assert(copy@ =~= candidates@);
                WaveTile::SuperPos(copy)
            },
            WaveTile::Undefined => WaveTile::Undefined,
        }
    }
}

impl<T> WaveTile<T> {
    /// Whether the cell is decided.
    pub fn is_collapsed(&self) -> (collapsed: bool)
        ensures
            collapsed == (self@ is Collapsed),
    {
        match *self {
            Self::Collapsed(_) => true,
            _ => false,
        }
    }

    /// The entries of the catalog that are still possible for an undecided cell.
    pub fn get_super_pos(&self) -> (candidates: &Vec<usize>)
        requires
            self@ is SuperPos,
        ensures
            self@ == CellView::<T>::SuperPos(candidates@),
    {
        match self {
            WaveTile::SuperPos(candidates) => candidates,
            _ => unreached(),
        }
    }
}

impl<T: Clone + PartialEq> WaveTile<T> {
    /// What a picture of the wave shows in this cell: the tile of a decided cell,
    /// nothing in an undecided one, and `error_tile` in a contradictory one.
    pub fn shown(&self, error_tile: Option<T>) -> (tile: Option<T>)
        requires
            plain_values::<T>(),
        ensures
            tile == match self@ {
                CellView::Collapsed(decided) => Some(decided),
                CellView::SuperPos(_) => None,
                CellView::Undefined => error_tile,
            },
    {
        match self {
            WaveTile::Collapsed(tile) => Some(copy_of(tile)),
            WaveTile::SuperPos(_) => None,
            WaveTile::Undefined => error_tile,
        }
    }
}

/// The number of entries that are still possible for an undecided cell.
pub open spec fn entropy<T>(cell: CellView<T>) -> nat {
    match cell {
        CellView::SuperPos(candidates) => candidates.len(),
        _ => 0,
    }
}

/// An undecided cell names only entries of a catalog of `count` patterns.
pub open spec fn candidates_listed<T>(cell: CellView<T>, count: nat) -> bool {
    cell matches CellView::SuperPos(candidates) ==> forall|k: int|
        0 <= k < candidates.len() ==> #[trigger] candidates[k] < count
}

} // verus!
