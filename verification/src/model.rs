//! The wave as a mathematical value, and what collapsing, propagating and stepping do
//! to it.

use crate::cell::{candidates_listed, entropy, CellView, WaveTile};
use crate::pattern::{catalog, PatternView};
use crate::rng::{draw_below, seeded_state};
use crate::utils::{is_neighbor, position_at, ArrayPos, GridView};
use vstd::prelude::*;

verus! {

/// The contents of a grid of cells.
pub open spec fn cell_views<T>(grid: GridView<WaveTile<T>>) -> GridView<CellView<T>> {
    GridView {
        width: grid.width,
        height: grid.height,
        cells: grid.cells.map_values(|cell: WaveTile<T>| cell@),
    }
}

/// The mathematical content of a wave.
pub struct WaveView<T> {
    /// The radius of the patterns.
    pub radius: nat,
    /// The catalog.
    pub patterns: Seq<PatternView<T>>,
    /// The cells.
    pub cells: GridView<CellView<T>>,
    /// The state of the generator that breaks ties.
    pub rng: Seq<u8>,
}

impl<T> WaveView<T> {
    /// The patterns all have the wave's radius, and the undecided cells name entries of
    /// the catalog.
    pub open spec fn wf(self) -> bool {
        &&& self.radius >= 1
        &&& self.cells.wf()
        &&& self.cells.width <= usize::MAX
        &&& self.cells.height <= usize::MAX
        &&& forall|k: int|
            0 <= k < self.patterns.len() ==> (#[trigger] self.patterns[k]).wf()
                && self.patterns[k].radius == self.radius
        &&& forall|index: int|
            0 <= index < self.cells.cells.len() ==> candidates_listed(
                #[trigger] self.cells.cells[index],
                self.patterns.len(),
            )
    }

    /// The same wave with another cell at `index`.
    pub open spec fn with_cell(self, index: int, cell: CellView<T>) -> WaveView<T> {
        WaveView {
            cells: GridView { cells: self.cells.cells.update(index, cell), ..self.cells },
            ..self
        }
    }
}

/// The candidates of a cell before the first step: all `count` entries of the catalog,
/// in their order.
pub open spec fn all_candidates(count: nat) -> Seq<usize> {
    Seq::new(count, |k: int| k as usize)
}

/// The wave that is made from a sample: the catalog of the sample, every cell undecided
/// among all its entries, and the generator seeded with `seed`.
pub open spec fn initial_wave<T>(
    sample: GridView<T>,
    radius: nat,
    width: nat,
    height: nat,
    seed: u64,
) -> WaveView<T> {
    let patterns = catalog(sample, radius);
    WaveView {
        radius,
        patterns,
        cells: GridView {
            width,
            height,
            cells: Seq::new(
                width * height,
                |index: int| CellView::SuperPos(all_candidates(patterns.len())),
            ),
        },
        rng: seeded_state(seed),
    }
}

/// The tile of `pattern` at column `dx` and row `dy` does not contradict the grid, when
/// the pattern is laid with its middle on `pos`: the cell under it lies outside the
/// grid, or is not decided, or shows that very tile.
pub open spec fn agrees<T>(
    cells: GridView<CellView<T>>,
    pos: ArrayPos,
    pattern: PatternView<T>,
    dx: int,
    dy: int,
) -> bool {
    let x = pos.x - pattern.radius + 1 + dx;
    let y = pos.y - pattern.radius + 1 + dy;
    cells.contains(x, y) ==> (cells.at(x, y) matches CellView::Collapsed(tile)
        ==> pattern.tiles.at(dx, dy) == tile)
}

/// `pattern`, laid with its middle on `pos`, contradicts no decided cell.
pub open spec fn compatible<T>(
    cells: GridView<CellView<T>>,
    pos: ArrayPos,
    pattern: PatternView<T>,
) -> bool {
    forall|dx: int, dy: int|
        0 <= dx < pattern.side() && 0 <= dy < pattern.side() ==> #[trigger] agrees(
            cells,
            pos,
            pattern,
            dx,
            dy,
        )
}

/// The place that the generator picks among `count` candidates, and the state in which
/// that leaves it. A generator picks a place below `count`; of a state that no generator
/// is ever in, the model says the first place.
pub open spec fn picked(rng: Seq<u8>, count: nat) -> (int, Seq<u8>) {
    let (drawn, after) = draw_below(rng, count as u64);
    (
        if drawn < count {
            drawn as int
        } else {
            0
        },
        after,
    )
}

/// The wave after the undecided cell at `pos` has been collapsed. With no candidate
/// left the cell becomes contradictory. With one, it shows the middle tile of that
/// pattern, and the generator is not asked. With more, the generator picks one of them.
pub open spec fn collapsed<T>(wave: WaveView<T>, pos: ArrayPos) -> WaveView<T> {
    let index = wave.cells.index_of(pos.x as int, pos.y as int);
    match wave.cells.cells[index] {
        CellView::SuperPos(candidates) => {
            if candidates.len() == 0 {
                wave.with_cell(index, CellView::Undefined)
            } else if candidates.len() == 1 {
                wave.with_cell(
                    index,
                    CellView::Collapsed(wave.patterns[candidates[0] as int].center()),
                )
            } else {
                let (place, rng) = picked(wave.rng, candidates.len());
                WaveView {
                    rng,
                    ..wave.with_cell(
                        index,
                        CellView::Collapsed(wave.patterns[candidates[place] as int].center()),
                    )
                }
            }
        },
        _ => wave,
    }
}

/// The candidates that stay for the cell at `pos`: those whose pattern contradicts no
/// decided cell.
pub open spec fn kept<T>(wave: WaveView<T>, pos: ArrayPos, candidates: Seq<usize>) -> Seq<usize> {
    candidates.filter(|k: usize| compatible(wave.cells, pos, wave.patterns[k as int]))
}

/// The cell at `index` after propagation from `center`: an undecided neighbor of
/// `center` keeps its compatible candidates; every other cell stays as it is.
pub open spec fn propagated_cell<T>(wave: WaveView<T>, center: ArrayPos, index: int) -> CellView<
    T,
> {
    let pos = position_at(wave.cells.width, index);
    match wave.cells.cells[index] {
        CellView::SuperPos(candidates) => if is_neighbor(center, wave.radius, pos) {
            CellView::SuperPos(kept(wave, pos, candidates))
        } else {
            CellView::SuperPos(candidates)
        },
        other => other,
    }
}

/// The wave after propagation from `center`.
pub open spec fn propagated<T>(wave: WaveView<T>, center: ArrayPos) -> WaveView<T> {
    WaveView {
        cells: GridView {
            cells: Seq::new(
                wave.cells.cells.len(),
                |index: int| propagated_cell(wave, center, index),
            ),
            ..wave.cells
        },
        ..wave
    }
}

/// `pos` is the undecided cell of least entropy, the first of them row by row.
pub open spec fn is_lowest_entropy<T>(cells: GridView<CellView<T>>, pos: ArrayPos) -> bool {
    &&& cells.contains(pos.x as int, pos.y as int)
    &&& cells.at(pos.x as int, pos.y as int) is SuperPos
    &&& forall|index: int|
        0 <= index < cells.cells.len() && (#[trigger] cells.cells[index]) is SuperPos ==> {
            ||| entropy(cells.at(pos.x as int, pos.y as int)) < entropy(cells.cells[index])
            ||| entropy(cells.at(pos.x as int, pos.y as int)) == entropy(cells.cells[index])
                && cells.index_of(pos.x as int, pos.y as int) <= index
        }
}

/// The cell to collapse next, if an undecided cell is left.
pub open spec fn observed<T>(cells: GridView<CellView<T>>) -> Option<ArrayPos> {
    if exists|pos: ArrayPos| is_lowest_entropy(cells, pos) {
        Some(choose|pos: ArrayPos| is_lowest_entropy(cells, pos))
    } else {
        None
    }
}

/// The wave after one step: the observed cell collapsed, and that propagated.
pub open spec fn stepped<T>(wave: WaveView<T>) -> WaveView<T> {
    match observed(wave.cells) {
        Some(pos) => propagated(collapsed(wave, pos), pos),
        None => wave,
    }
}

/// The wave after `steps` steps.
pub open spec fn run<T>(wave: WaveView<T>, steps: nat) -> WaveView<T>
    decreases steps,
{
    if steps == 0 {
        wave
    } else {
        stepped(run(wave, (steps - 1) as nat))
    }
}

/// The number of undecided cells.
pub open spec fn undecided_count<T>(cells: Seq<CellView<T>>) -> nat
    decreases cells.len(),
{
    if cells.len() == 0 {
        0
    } else if cells.last() is SuperPos {
        undecided_count(cells.drop_last()) + 1
    } else {
        undecided_count(cells.drop_last())
    }
}

/// The wave when no undecided cell is left: one step for each undecided cell.
pub open spec fn finished<T>(wave: WaveView<T>) -> WaveView<T> {
    run(wave, undecided_count(wave.cells.cells))
}

/// No candidate was added and no decision taken back from `before` to `after`: a cell
/// that was decided or contradictory is as it was, and a cell that is still undecided
/// has no more candidates than it had.
pub open spec fn narrows<T>(before: Seq<CellView<T>>, after: Seq<CellView<T>>) -> bool {
    &&& before.len() == after.len()
    &&& forall|index: int|
        0 <= index < before.len() ==> match #[trigger] before[index] {
            CellView::SuperPos(candidates) => after[index] is SuperPos ==> entropy(after[index])
                <= candidates.len(),
            decided => after[index] == decided,
        }
}

} // verus!
