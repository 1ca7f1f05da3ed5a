//! The wave: a grid of cells over a catalog of patterns, and the steps that decide its
//! cells one by one.

use crate::cell::{candidates_listed, entropy, CellView, WaveTile};
use crate::laws::{
    lemma_collapsed, lemma_compatible_decided, lemma_finished, lemma_kept_is_part,
    lemma_kept_push, lemma_kept_same, lemma_lowest_entropy_unique, lemma_nothing_observed,
    lemma_propagated, lemma_run, lemma_stepped, lemma_undecided_count,
};
use crate::model::{
    agrees, all_candidates, cell_views, collapsed, compatible, finished, initial_wave,
    is_lowest_entropy, kept, narrows, observed, propagated, propagated_cell, run, stepped,
    undecided_count, WaveView,
};
use crate::order::{is_first_least, lemma_stable_sort_first, sorted_by_entropy};
use crate::pattern::{
    lemma_catalog_prefix_sound, lemma_cloned_pattern, lemma_pattern_at, pattern_views,
    scan_position, Pattern,
};
use crate::rng::{next_below, rng_state, seeded_rng};
use crate::tile::{copy_of, plain_values};
use crate::utils::{
    lemma_index_of_bounds, lemma_neighbors_contains, lemma_neighbors_no_duplicates,
    lemma_position_at_index, neighbors, position_at, Array2D, ArrayPos, GridView,
};
use rand::rngs::StdRng;
use vstd::prelude::*;

verus! {

/// A wave over a catalog of patterns.
#[derive(Debug)]
pub struct Wave<T> where T: Clone {
    pattern_radius: usize,
    patterns: Vec<Pattern<T>>,
    wave: Array2D<WaveTile<T>>,
    rng: StdRng,
}

impl<T: Clone> View for Wave<T> {
    type V = WaveView<T>;

    closed spec fn view(&self) -> WaveView<T> {
        WaveView {
            radius: self.pattern_radius as nat,
            patterns: pattern_views(self.patterns@),
            cells: cell_views(self.wave@),
            rng: rng_state(self.rng),
        }
    }
}

impl<T: Clone + PartialEq> Clone for Wave<T> {
    /// A wave with the same catalog and cells, and a generator in the same state.
    fn clone(&self) -> (copy: Self)
        ensures
            plain_values::<T>() ==> copy@ == self@,
            plain_values::<T>() && self.wf() ==> copy.wf(),
    {
        let copy = Wave {
            pattern_radius: self.pattern_radius,
            patterns: self.patterns.clone(),
            wave: self.wave.clone(),
            rng: self.rng.clone(),
        };
        proof {
            if plain_values::<T>() {
                assert forall|k: int| 0 <= k < self.patterns@.len() implies (
                #[trigger] copy.patterns@[k])@ == self.patterns@[k]@ by {
                    crate::pattern::lemma_cloned_pattern(self.patterns@[k], copy.patterns@[k]);
                }
                assert(copy@.patterns =~= self@.patterns);
                assert forall|index: int| 0 <= index < self.wave@.cells.len() implies (
                #[trigger] copy.wave@.cells[index])@ == self.wave@.cells[index]@ by {
                    assert(cloned(self.wave@.cells[index], copy.wave@.cells[index]));
                }
                assert(copy@.cells.cells =~= self@.cells.cells);
                if self.wf() {
                    assert forall|k: int| 0 <= k < copy.patterns@.len() implies (
                    #[trigger] copy.patterns@[k]).wf() by {
                        assert(self.patterns@[k].wf());
                    }
                }
            }
        }
        copy
    }
}

/// The list `0, 1, ..` of the first `count` numbers.
fn first_indices(count: usize) -> (indices: Vec<usize>)
    ensures
        indices@ == all_candidates(count as nat),
{
    let mut indices: Vec<usize> = Vec::with_capacity(count);
    let mut next: usize = 0;
    while next < count
        invariant
            next <= count,
            indices@ == all_candidates(next as nat),
        decreases count - next,
    {
        indices.push(next);
        next = next + 1;
        assert(indices@ =~= all_candidates(next as nat));
    }
    indices
}

/// `items` lists the undecided cells among the first `upto` cells, each with its
/// position and its entropy, in the order of the cells.
spec fn lists_undecided<T>(
    cells: GridView<CellView<T>>,
    items: Seq<(ArrayPos, usize)>,
    upto: int,
) -> bool {
    &&& forall|k: int|
        0 <= k < items.len() ==> {
            let pos = (#[trigger] items[k]).0;
            &&& cells.contains(pos.x as int, pos.y as int)
            &&& cells.index_of(pos.x as int, pos.y as int) < upto
            &&& cells.at(pos.x as int, pos.y as int) is SuperPos
            &&& entropy(cells.at(pos.x as int, pos.y as int)) == items[k].1
        }
    &&& forall|j: int, k: int|
        0 <= j < k < items.len() ==> cells.index_of(
            (#[trigger] items[j]).0.x as int,
            items[j].0.y as int,
        ) < cells.index_of((#[trigger] items[k]).0.x as int, items[k].0.y as int)
    &&& forall|index: int|
        0 <= index < upto && (#[trigger] cells.cells[index]) is SuperPos ==> exists|k: int|
            0 <= k < items.len() && (#[trigger] items[k]).0 == position_at(cells.width, index)
}

/// A list of the undecided cells before column `x` of row `y` becomes one of those up
/// to that cell: as it is where that cell is decided or contradictory, and with that
/// cell at its end where it is undecided.
proof fn lemma_lists_undecided_next<T>(
    cells: GridView<CellView<T>>,
    items: Seq<(ArrayPos, usize)>,
    x: int,
    y: int,
)
    requires
        cells.wf(),
        cells.width <= usize::MAX,
        cells.height <= usize::MAX,
        cells.contains(x, y),
        lists_undecided(cells, items, cells.index_of(x, y)),
    ensures
        0 <= cells.index_of(x, y) < cells.cells.len(),
        match cells.at(x, y) {
            CellView::SuperPos(candidates) => candidates.len() <= usize::MAX ==> lists_undecided(
                cells,
                items.push((ArrayPos { x: x as usize, y: y as usize }, candidates.len() as usize)),
                cells.index_of(x, y) + 1,
            ),
            _ => lists_undecided(cells, items, cells.index_of(x, y) + 1),
        },
{
    lemma_index_of_bounds(cells.width, cells.height, x, y);
    let here = cells.index_of(x, y);
    let pos = ArrayPos { x: x as usize, y: y as usize };
    assert(position_at(cells.width, here) == pos);
    match cells.at(x, y) {
        CellView::SuperPos(candidates) => {
            if candidates.len() <= usize::MAX {
                let longer = items.push((pos, candidates.len() as usize));
                assert forall|index: int|
                    0 <= index < here + 1 && (
                    #[trigger] cells.cells[index]) is SuperPos implies exists|k: int|
                    0 <= k < longer.len() && (#[trigger] longer[k]).0 == position_at(
                        cells.width,
                        index,
                    ) by {
                    if index < here {
                        let k = choose|k: int|
                            0 <= k < items.len() && (#[trigger] items[k]).0 == position_at(
                                cells.width,
                                index,
                            );
                        assert(longer[k] == items[k]);
                    } else {
                        assert(longer[items.len() as int].0 == position_at(cells.width, index));
                    }
                }
                assert forall|k: int| 0 <= k < longer.len() implies {
                    let at = (#[trigger] longer[k]).0;
                    &&& cells.contains(at.x as int, at.y as int)
                    &&& cells.index_of(at.x as int, at.y as int) < here + 1
                    &&& cells.at(at.x as int, at.y as int) is SuperPos
                    &&& entropy(cells.at(at.x as int, at.y as int)) == longer[k].1
                } by {
                    if k < items.len() {
                        assert(longer[k] == items[k]);
                    }
                }
                assert forall|j: int, k: int| 0 <= j < k < longer.len() implies cells.index_of(
                    (#[trigger] longer[j]).0.x as int,
                    longer[j].0.y as int,
                ) < cells.index_of((#[trigger] longer[k]).0.x as int, longer[k].0.y as int) by {
                    assert(longer[j] == items[j]);
                    if k < items.len() {
                        assert(longer[k] == items[k]);
                    }
                }
            }
        },
        _ => {},
    }
}

/// The first listed cell of least entropy is the cell to collapse next.
proof fn lemma_first_listed_is_lowest<T>(
    cells: GridView<CellView<T>>,
    items: Seq<(ArrayPos, usize)>,
    first: int,
)
    requires
        cells.wf(),
        cells.width <= usize::MAX,
        cells.height <= usize::MAX,
        lists_undecided(cells, items, cells.cells.len() as int),
        is_first_least(items, first),
    ensures
        is_lowest_entropy(cells, items[first].0),
        observed(cells) == Some(items[first].0),
{
    let lowest = items[first].0;
    lemma_index_of_bounds(cells.width, cells.height, lowest.x as int, lowest.y as int);
    assert forall|index: int|
        0 <= index < cells.cells.len() && (#[trigger] cells.cells[index]) is SuperPos implies {
        ||| entropy(cells.at(lowest.x as int, lowest.y as int)) < entropy(cells.cells[index])
        ||| entropy(cells.at(lowest.x as int, lowest.y as int)) == entropy(cells.cells[index])
            && cells.index_of(lowest.x as int, lowest.y as int) <= index
    } by {
        let k = choose|k: int|
            0 <= k < items.len() && (#[trigger] items[k]).0 == position_at(cells.width, index);
        lemma_position_at_index(cells.width, cells.height, index);
        assert(items[first].1 <= items[k].1);
        if k < first {
            assert(items[first].1 < items[k].1);
        }
    }
    assert(is_lowest_entropy(cells, lowest));
    let chosen = choose|pos: ArrayPos| is_lowest_entropy(cells, pos);
    lemma_lowest_entropy_unique(cells, lowest, chosen);
}

/// Where no undecided cell is listed, none is observed.
proof fn lemma_none_listed<T>(cells: GridView<CellView<T>>, items: Seq<(ArrayPos, usize)>)
    requires
        cells.wf(),
        lists_undecided(cells, items, cells.cells.len() as int),
        items.len() == 0,
    ensures
        observed(cells) is None,
        undecided_count(cells.cells) == 0,
{
    lemma_undecided_count(cells.cells);
    assert forall|index: int| 0 <= index < cells.cells.len() implies !((
    #[trigger] cells.cells[index]) is SuperPos) by {
        if cells.cells[index] is SuperPos {
            let k = choose|k: int|
                0 <= k < items.len() && (#[trigger] items[k]).0 == position_at(cells.width, index);
        }
    }
    lemma_nothing_observed(cells);
}

impl<T: Clone + PartialEq> Wave<T> {
    /// The patterns all have the wave's radius, the undecided cells name entries of the
    /// catalog, and there is one cell for each position.
    pub closed spec fn wf(&self) -> bool {
        &&& self@.wf()
        &&& self.wave.wf()
        &&& forall|k: int| 0 <= k < self.patterns@.len() ==> (#[trigger] self.patterns@[k]).wf()
    }

    /// A wave is well formed exactly if its content is.
    pub proof fn lemma_wf(&self)
        ensures
            self.wf() <==> self@.wf(),
    {
        if self@.wf() {
            assert(self.wave@.cells.len() == self@.cells.cells.len());
            assert forall|k: int| 0 <= k < self.patterns@.len() implies (
            #[trigger] self.patterns@[k]).wf() by {
                assert(self@.patterns[k] == self.patterns@[k]@);
            }
        }
    }

    /// The grid of cells.
    pub fn grid(&self) -> (grid: &Array2D<WaveTile<T>>)
        ensures
            cell_views(grid@) == self@.cells,
            self.wf() ==> grid.wf(),
    {
        &self.wave
    }

    /// The catalog.
    pub fn patterns(&self) -> (patterns: &Vec<Pattern<T>>)
        ensures
            pattern_views(patterns@) == self@.patterns,
            self.wf() ==> forall|k: int|
                0 <= k < patterns@.len() ==> (#[trigger] patterns@[k]).wf(),
    {
        &self.patterns
    }

    /// A wave of `width` by `height` cells over the catalog of `model`, every cell
    /// undecided among all entries, with a generator seeded with `seed`.
    pub fn new(
        model: &Array2D<T>,
        pattern_radius: usize,
        width: usize,
        height: usize,
        seed: u64,
    ) -> (wave: Self)
        requires
            pattern_radius != 0,
            model.wf(),
            width * height <= usize::MAX,
            plain_values::<T>(),
        ensures
            wave.wf(),
            wave@ == initial_wave(model@, pattern_radius as nat, width as nat, height as nat, seed),
    {
        let patterns = Pattern::get_patterns(model, pattern_radius);
        let count = width * height;
        let mut cells: Vec<WaveTile<T>> = Vec::with_capacity(count);
        let mut index: usize = 0;
        while index < count
            invariant
                index <= count,
                cells@.len() == index,
                forall|k: int|
                    0 <= k < index ==> (#[trigger] cells@[k])@ == CellView::<T>::SuperPos(
                        all_candidates(patterns@.len()),
                    ),
            decreases count - index,
        {
            cells.push(WaveTile::SuperPos(first_indices(patterns.len())));
            index = index + 1;
        }
        let wave = Array2D::new(width, height, cells);
        let rng = seeded_rng(seed);
        let wave = Wave { patterns, wave, rng, pattern_radius };
        proof {
            let wanted = initial_wave(
                model@,
                pattern_radius as nat,
                width as nat,
                height as nat,
                seed,
            );
            assert(wave@.cells.cells =~= wanted.cells.cells);
            assert(wave@.patterns == wanted.patterns);
            assert forall|k: int| 0 <= k < wave@.patterns.len() implies (
            #[trigger] wave@.patterns[k]).wf() && wave@.patterns[k].radius
                == pattern_radius as nat by {
                let step = crate::pattern::lemma_catalog_prefix_sound(
                    model@,
                    pattern_radius as nat,
                    model@.width * model@.height,
                    k,
                );
                crate::pattern::lemma_pattern_at(
                    model@,
                    crate::pattern::scan_position(model@.height, step),
                    pattern_radius as nat,
                );
            }
        }
        wave
    }

    /// The cell at column `x` and row `y`, and its place in the model.
    fn cell(&self, x: usize, y: usize) -> (cell: &WaveTile<T>)
        requires
            self.wf(),
            self@.cells.contains(x as int, y as int),
        ensures
            cell@ == self@.cells.at(x as int, y as int),
            0 <= self@.cells.index_of(x as int, y as int) < self@.cells.cells.len(),
    {
        proof {
            lemma_index_of_bounds(self@.cells.width, self@.cells.height, x as int, y as int);
        }
        self.wave.at(x, y)
    }

    /// Whether `pattern`, laid with its middle on `pos`, contradicts no decided cell:
    /// wherever one of its tiles lies on a decided cell, the cell shows that tile.
    pub fn check_pattern(&self, pos: ArrayPos, pattern: &Pattern<T>) -> (viable: bool)
        requires
            self.wf(),
            pattern.wf(),
            plain_values::<T>(),
        ensures
            viable == compatible(self@.cells, pos, pattern@),
    {
        let radius = pattern.radius();
        let side = pattern.data().width();
        let width = self.wave.width();
        let height = self.wave.height();
        let first_x = if pos.x >= radius {
            pos.x - radius + 1
        } else {
            0
        };
        let skip_x = if pos.x >= radius {
            0
        } else {
            radius - 1 - pos.x
        };
        let end_x = if radius <= width && pos.x <= width - radius {
            pos.x + radius
        } else {
            width
        };
        let first_y = if pos.y >= radius {
            pos.y - radius + 1
        } else {
            0
        };
        let skip_y = if pos.y >= radius {
            0
        } else {
            radius - 1 - pos.y
        };
        let end_y = if radius <= height && pos.y <= height - radius {
            pos.y + radius
        } else {
            height
        };
        let ghost cells = self@.cells;
        let mut y = first_y;
        while y < end_y
            invariant
                self.wf(),
                pattern.wf(),
                plain_values::<T>(),
                cells == self@.cells,
                radius == pattern@.radius,
                side == pattern@.side(),
                width == cells.width,
                height == cells.height,
                first_x == pos.x - radius + 1 + skip_x,
                first_y == pos.y - radius + 1 + skip_y,
                first_x == 0 || skip_x == 0,
                first_y == 0 || skip_y == 0,
                end_x <= width,
                end_y <= height,
                end_x <= pos.x + radius,
                end_y <= pos.y + radius,
                end_x == width || end_x == pos.x + radius,
                end_y == height || end_y == pos.y + radius,
                first_y <= y,
                forall|dx: int, dy: int|
                    0 <= dx < pattern@.side() && 0 <= dy < pattern@.side() && pos.y - radius + 1
                        + dy < y ==> #[trigger] agrees(cells, pos, pattern@, dx, dy),
            decreases end_y - y,
        {
            let dy = y - first_y + skip_y;
            let mut x = first_x;
            while x < end_x
                invariant
                    self.wf(),
                    pattern.wf(),
                    plain_values::<T>(),
                    cells == self@.cells,
                    radius == pattern@.radius,
                    side == pattern@.side(),
                    width == cells.width,
                    height == cells.height,
                    first_x == pos.x - radius + 1 + skip_x,
                    end_x <= width,
                    end_x <= pos.x + radius,
                    first_x <= x,
                    y < end_y <= height,
                    dy == y - (pos.y - radius + 1),
                    0 <= dy < pattern@.side(),
                    forall|dx: int|
                        0 <= dx < pattern@.side() && pos.x - radius + 1 + dx < x
                            ==> #[trigger] agrees(cells, pos, pattern@, dx, dy as int),
                decreases end_x - x,
            {
                let dx = x - first_x + skip_x;
                match self.cell(x, y) {
                    WaveTile::Collapsed(state) => {
                        if !(*pattern.data().at(dx, dy) == *state) {
                            assert(!agrees(cells, pos, pattern@, dx as int, dy as int));
                            return false;
                        }
                    },
                    _ => {},
                }
                assert(agrees(cells, pos, pattern@, dx as int, dy as int));
                x = x + 1;
            }
            y = y + 1;
        }
        true
    }

    /// Puts `cell` at column `x` and row `y`.
    fn put(&mut self, x: usize, y: usize, cell: WaveTile<T>)
        requires
            old(self).wf(),
            old(self)@.cells.contains(x as int, y as int),
            candidates_listed(cell@, old(self)@.patterns.len()),
        ensures
            final(self).wf(),
            final(self)@ == old(self)@.with_cell(old(self)@.cells.index_of(x as int, y as int), cell@),
            final(self).rng == old(self).rng,
    {
        proof {
            lemma_index_of_bounds(self@.cells.width, self@.cells.height, x as int, y as int);
        }
        let ghost before = self@;
        let ghost index = before.cells.index_of(x as int, y as int);
        *self.wave.at_mut(x, y) = cell;
        assert(self@.cells.cells =~= before.cells.cells.update(index, cell@));
    }

    /// Collapses the undecided cell at `pos`. With no candidate left the cell becomes
    /// contradictory. With one, it shows the middle tile of that pattern, and the
    /// generator is not asked. With more, the generator picks one of them.
    pub fn collapse(&mut self, pos: ArrayPos)
        requires
            old(self).wf(),
            old(self)@.cells.contains(pos.x as int, pos.y as int),
            old(self)@.cells.at(pos.x as int, pos.y as int) is SuperPos,
            plain_values::<T>(),
        ensures
            final(self).wf(),
            final(self)@ == collapsed(old(self)@, pos),
            entropy(old(self)@.cells.at(pos.x as int, pos.y as int)) <= 1 ==> final(self)@.rng
                == old(self)@.rng,
            !(final(self)@.cells.at(pos.x as int, pos.y as int) is SuperPos),
            narrows(old(self)@.cells.cells, final(self)@.cells.cells),
    {
        proof {
            lemma_collapsed(self@, pos);
        }
        proof {
            lemma_index_of_bounds(
                self@.cells.width,
                self@.cells.height,
                pos.x as int,
                pos.y as int,
            );
        }
        let possibilities = self.wave.at(pos.x, pos.y).get_super_pos();
        if possibilities.len() == 0 {
            self.put(pos.x, pos.y, WaveTile::Undefined);
            return ;
        }
        let index = if possibilities.len() == 1 {
            0
        } else {
            next_below(&mut self.rng, possibilities.len())
        };
        let chosen = possibilities[index];
        proof {
            let before = old(self)@;
            let place = before.cells.index_of(pos.x as int, pos.y as int);
            assert(candidates_listed(before.cells.cells[place], before.patterns.len()));
            assert(before.cells.cells[place] == CellView::<T>::SuperPos(possibilities@));
            assert(0 <= index < possibilities@.len());
            let candidates = before.cells.cells[place]->SuperPos_0;
            assert(candidates == possibilities@);
            assert(candidates[index as int] < before.patterns.len());
            assert(before.patterns.len() == self.patterns@.len());
            assert(self.patterns@[chosen as int].wf());
            assert(pattern_views(self.patterns@)[chosen as int] == self.patterns@[chosen as int]@);
        }
        let tile = copy_of(self.patterns[chosen].center());
        self.put(pos.x, pos.y, WaveTile::Collapsed(tile));
    }

    /// The candidates of the undecided cell at `pos` whose pattern contradicts no
    /// decided cell, in the order in which they stand.
    fn viable_candidates(&self, pos: ArrayPos, possibilities: &Vec<usize>) -> (viable: Vec<usize>)
        requires
            self.wf(),
            forall|k: int|
                0 <= k < possibilities@.len() ==> #[trigger] possibilities@[k]
                    < self@.patterns.len(),
            plain_values::<T>(),
        ensures
            viable@ == kept(self@, pos, possibilities@),
    {
        let mut viable: Vec<usize> = Vec::new();
        let mut next: usize = 0;
        proof {
            lemma_kept_push(self@, pos, Seq::empty(), 0);
            assert(possibilities@.take(0) =~= Seq::empty());
        }
        while next < possibilities.len()
            invariant
                next <= possibilities@.len(),
                self.wf(),
                forall|k: int|
                    0 <= k < possibilities@.len() ==> #[trigger] possibilities@[k]
                        < self@.patterns.len(),
                plain_values::<T>(),
                viable@ == kept(self@, pos, possibilities@.take(next as int)),
            decreases possibilities@.len() - next,
        {
            let pattern_index = possibilities[next];
            proof {
                assert(possibilities@[next as int] < self@.patterns.len());
                assert(pattern_views(self.patterns@)[pattern_index as int]
                    == self.patterns@[pattern_index as int]@);
                lemma_kept_push(self@, pos, possibilities@.take(next as int), pattern_index);
                assert(possibilities@.take(next as int).push(pattern_index)
                    =~= possibilities@.take(next + 1));
            }
            if self.check_pattern(pos, &self.patterns[pattern_index]) {
                viable.push(pattern_index);
            }
            next = next + 1;
        }
        assert(possibilities@.take(next as int) =~= possibilities@);
        viable
    }

    /// Takes from every undecided cell around `pos`, fewer than the radius away in
    /// columns and rows, the candidates whose pattern contradicts a decided cell.
    /// Nothing else changes; cells further away are not looked at.
    pub fn propagate(&mut self, pos: ArrayPos)
        requires
            old(self).wf(),
            plain_values::<T>(),
        ensures
            final(self).wf(),
            final(self)@ == propagated(old(self)@, pos),
            narrows(old(self)@.cells.cells, final(self)@.cells.cells),
    {
        proof {
            lemma_propagated(self@, pos);
        }
        let ghost start = self@;
        let mut around = self.wave.get_neighbors(pos, self.pattern_radius);
        let ghost all = around@;
        let ghost mut done: int = 0;
        proof {
            lemma_neighbors_no_duplicates(start.cells.width, start.cells.height, pos, start.radius);
            assert(all.skip(0) =~= all);
            assert(all.take(0) =~= Seq::empty());
        }
        loop
            invariant
                self.wf(),
                around.wf(),
                plain_values::<T>(),
                start.wf(),
                0 <= done <= all.len(),
                around@ == all.skip(done),
                all == neighbors(start.cells.width, start.cells.height, pos, start.radius),
                all.no_duplicates(),
                self@.radius == start.radius,
                self@.patterns == start.patterns,
                self@.rng == start.rng,
                self@.cells.width == start.cells.width,
                self@.cells.height == start.cells.height,
                self@.cells.cells.len() == start.cells.cells.len(),
                forall|index: int|
                    0 <= index < start.cells.cells.len() ==> #[trigger] self@.cells.cells[index]
                        == if all.take(done).contains(position_at(start.cells.width, index)) {
                        propagated_cell(start, pos, index)
                    } else {
                        start.cells.cells[index]
                    },
            ensures
                done == all.len(),
            decreases all.len() - done,
        {
            let ghost before = self@;
            match around.next() {
                None => {
                    break ;
                },
                Some(neighbor) => {
                    proof {
                        assert(neighbor == all[done]);
                        assert(all.contains(neighbor));
                        lemma_neighbors_contains(
                            start.cells.width,
                            start.cells.height,
                            pos,
                            start.radius,
                            neighbor,
                        );
                        lemma_index_of_bounds(
                            start.cells.width,
                            start.cells.height,
                            neighbor.x as int,
                            neighbor.y as int,
                        );
                        assert(all.skip(done).drop_first() =~= all.skip(done + 1));
                        assert(all.take(done + 1) =~= all.take(done).push(neighbor));
                        if all.take(done).contains(neighbor) {
                            let earlier = choose|earlier: int|
                                0 <= earlier < done && all.take(done)[earlier] == neighbor;
                            assert(all[earlier] == all[done]);
                        }
                        assert forall|index: int|
                            0 <= index < start.cells.cells.len() && ((
                            #[trigger] before.cells.cells[index]) is Collapsed
                                || start.cells.cells[index] is Collapsed) implies before.cells.cells[index]
                            == start.cells.cells[index] by {}
                    }
                    let ghost place = start.cells.index_of(neighbor.x as int, neighbor.y as int);
                    assert(position_at(start.cells.width, place) == neighbor);
                    assert(before.cells.cells[place] == start.cells.cells[place]);
                    let viable = match self.cell(neighbor.x, neighbor.y) {
                        WaveTile::SuperPos(possibilities) => {
                            proof {
                                assert(candidates_listed(
                                    before.cells.cells[place],
                                    before.patterns.len(),
                                ));
                                assert(before.cells.cells[place]->SuperPos_0 == possibilities@);
                            }
                            let viable = self.viable_candidates(neighbor, possibilities);
                            proof {
                                lemma_kept_is_part(before, neighbor, possibilities@);
                                assert forall|k: usize| #[trigger]
                                    compatible(before.cells, neighbor, before.patterns[k as int])
                                    == compatible(
                                    start.cells,
                                    neighbor,
                                    start.patterns[k as int],
                                ) by {
                                    lemma_compatible_decided(
                                        before.cells,
                                        start.cells,
                                        neighbor,
                                        start.patterns[k as int],
                                    );
                                }
                                lemma_kept_same(before, start, neighbor, possibilities@);
                            }
                            Some(viable)
                        },
                        _ => None,
                    };
                    if let Some(viable) = viable {
                        self.put(neighbor.x, neighbor.y, WaveTile::SuperPos(viable));
                    }
                    proof {
                        done = done + 1;
                        assert forall|index: int|
                            0 <= index < start.cells.cells.len() implies #[trigger] self@.cells.cells[index]
                            == if all.take(done).contains(position_at(start.cells.width, index)) {
                            propagated_cell(start, pos, index)
                        } else {
                            start.cells.cells[index]
                        } by {
                            let here = position_at(start.cells.width, index);
                            lemma_position_at_index(start.cells.width, start.cells.height, index);
                            if index != place {
                                assert(here != neighbor);
                                assert(self@.cells.cells[index] == before.cells.cells[index]);
                                if all.take(done).contains(here) {
                                    let earlier = choose|earlier: int|
                                        0 <= earlier < done && all.take(done)[earlier] == here;
                                    assert(all.take(done - 1)[earlier] == here);
                                }
                            } else {
                                assert(all.take(done)[done - 1] == neighbor);
                            }
                        }
                    }
                },
            }
        }
        proof {
            assert(all.take(done) =~= all);
            assert forall|index: int| 0 <= index < start.cells.cells.len() implies self@.cells.cells[index]
                == propagated_cell(start, pos, index) by {
                let here = position_at(start.cells.width, index);
                lemma_position_at_index(start.cells.width, start.cells.height, index);
                lemma_neighbors_contains(
                    start.cells.width,
                    start.cells.height,
                    pos,
                    start.radius,
                    here,
                );
            }
            assert(self@.cells.cells =~= propagated(start, pos).cells.cells);
        }
    }

    /// The undecided cell with the fewest candidates; of several, the first row by
    /// row. None when no cell is undecided.
    pub fn observe(&self) -> (pos: Option<ArrayPos>)
        requires
            self.wf(),
        ensures
            pos == observed(self@.cells),
            pos matches Some(lowest) ==> is_lowest_entropy(self@.cells, lowest),
            pos is None <==> undecided_count(self@.cells.cells) == 0,
    {
        let width = self.wave.width();
        let height = self.wave.height();
        let ghost cells = self@.cells;
        let mut tiles: Vec<(ArrayPos, usize)> = Vec::new();
        let mut y: usize = 0;
        while y < height
            invariant
                self.wf(),
                cells == self@.cells,
                width == cells.width,
                height == cells.height,
                y <= height,
                0 <= y * width <= cells.cells.len(),
                lists_undecided(cells, tiles@, y * width),
            decreases height - y,
        {
            let mut x: usize = 0;
            while x < width
                invariant
                    self.wf(),
                    cells == self@.cells,
                    width == cells.width,
                    height == cells.height,
                    y < height,
                    x <= width,
                    0 <= y * width + x <= cells.cells.len(),
                    lists_undecided(cells, tiles@, y * width + x),
                decreases width - x,
            {
                proof {
                    lemma_lists_undecided_next(cells, tiles@, x as int, y as int);
                }
                match self.cell(x, y) {
                    WaveTile::SuperPos(possibilities) => {
                        tiles.push((ArrayPos::new(x, y), possibilities.len()));
                    },
                    _ => {},
                }
                x = x + 1;
            }
            proof {
                assert((y + 1) * width == y * width + width) by (nonlinear_arith);
            }
            y = y + 1;
        }
        proof {
            assert(height * width == cells.width * cells.height) by (nonlinear_arith)
                requires
                    width == cells.width,
                    height == cells.height,
            ;
        }
        let sorted = sorted_by_entropy(tiles);
        if sorted.len() > 0 {
            proof {
                let first = lemma_stable_sort_first(tiles@, sorted@);
                lemma_first_listed_is_lowest(cells, tiles@, first);
                if undecided_count(cells.cells) == 0 {
                    lemma_nothing_observed(cells);
                }
            }
            Some(sorted[0].0)
        } else {
            proof {
                lemma_none_listed(cells, tiles@);
            }
            None
        }
    }

    /// One step: the observed cell is collapsed, and that is propagated. Nothing
    /// happens when no cell is undecided.
    pub fn step(&mut self)
        requires
            old(self).wf(),
            plain_values::<T>(),
        ensures
            final(self).wf(),
            final(self)@ == stepped(old(self)@),
            narrows(old(self)@.cells.cells, final(self)@.cells.cells),
            undecided_count(old(self)@.cells.cells) > 0 ==> undecided_count(
                final(self)@.cells.cells,
            ) + 1 == undecided_count(old(self)@.cells.cells),
    {
        proof {
            lemma_stepped(self@);
        }
        if let Some(tile) = self.observe() {
            self.collapse(tile);
            self.propagate(tile);
        }
    }

    /// `step_count` steps, one after the other.
    pub fn steps(&mut self, step_count: usize)
        requires
            old(self).wf(),
            plain_values::<T>(),
        ensures
            final(self).wf(),
            final(self)@ == run(old(self)@, step_count as nat),
            narrows(old(self)@.cells.cells, final(self)@.cells.cells),
    {
        let ghost start = self@;
        let mut taken: usize = 0;
        while taken < step_count
            invariant
                taken <= step_count,
                self.wf(),
                start.wf(),
                plain_values::<T>(),
                self@ == run(start, taken as nat),
            decreases step_count - taken,
        {
            self.step();
            taken = taken + 1;
        }
        proof {
            lemma_run(start, step_count as nat);
        }
    }

    /// Steps until no cell is undecided: one step for each cell that was undecided,
    /// so at most one for each cell of the wave.
    pub fn collapse_full(&mut self)
        requires
            old(self).wf(),
            plain_values::<T>(),
        ensures
            final(self).wf(),
            final(self)@ == finished(old(self)@),
            undecided_count(old(self)@.cells.cells) <= old(self)@.cells.width * old(
                self,
            )@.cells.height,
            undecided_count(final(self)@.cells.cells) == 0,
            narrows(old(self)@.cells.cells, final(self)@.cells.cells),
    {
        let ghost start = self@;
        let ghost mut steps: nat = 0;
        loop
            invariant
                self.wf(),
                start.wf(),
                plain_values::<T>(),
                self@ == run(start, steps),
                undecided_count(self@.cells.cells) + steps == undecided_count(start.cells.cells),
            ensures
                undecided_count(self@.cells.cells) == 0,
            decreases undecided_count(self@.cells.cells),
        {
            let ghost before = self@;
            match self.observe() {
                None => {
                    break ;
                },
                Some(tile) => {
                    proof {
                        lemma_stepped(before);
                        lemma_undecided_count(before.cells.cells);
                        lemma_index_of_bounds(
                            before.cells.width,
                            before.cells.height,
                            tile.x as int,
                            tile.y as int,
                        );
                    }
                    self.collapse(tile);
                    self.propagate(tile);
                    proof {
                        steps = steps + 1;
                    }
                },
            }
        }
        proof {
            lemma_finished(start, 0);
        }
    }
}

} // verus!
