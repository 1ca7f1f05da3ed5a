//! What holds of every wave: steps keep it well formed, take no decision back, and
//! decide one cell each until none is undecided.

use crate::cell::{candidates_listed, entropy, CellView};
use crate::model::{
    agrees, all_candidates, collapsed, compatible, finished, initial_wave, is_lowest_entropy, kept,
    narrows, observed, picked, propagated, run, stepped, undecided_count, WaveView,
};
use crate::pattern::{catalog, lemma_pattern_at, lemma_uniform_catalog, uniform_pattern, PatternView};
use crate::utils::{
    lemma_index_of_bounds, lemma_position_at_index, position_at, ArrayPos, GridView,
};
use vstd::prelude::*;

verus! {

/// The candidates kept of a list with one more candidate: those kept of the list, and
/// the new one if its pattern is compatible.
pub proof fn lemma_kept_push<T>(
    wave: WaveView<T>,
    pos: ArrayPos,
    candidates: Seq<usize>,
    candidate: usize,
)
    ensures
        kept(wave, pos, candidates.push(candidate)) == if compatible(
            wave.cells,
            pos,
            wave.patterns[candidate as int],
        ) {
            kept(wave, pos, candidates).push(candidate)
        } else {
            kept(wave, pos, candidates)
        },
        kept(wave, pos, Seq::empty()) == Seq::<usize>::empty(),
{
    reveal_with_fuel(Seq::filter, 2);
    assert(candidates.push(candidate).drop_last() =~= candidates);
}

/// The candidates that are kept are candidates that were there, and no more of them.
pub proof fn lemma_kept_is_part<T>(wave: WaveView<T>, pos: ArrayPos, candidates: Seq<usize>)
    ensures
        kept(wave, pos, candidates).len() <= candidates.len(),
        forall|k: int|
            0 <= k < kept(wave, pos, candidates).len() ==> candidates.contains(
                #[trigger] kept(wave, pos, candidates)[k],
            ),
{
    let pred = |k: usize| compatible(wave.cells, pos, wave.patterns[k as int]);
    candidates.lemma_filter_len(pred);
    assert forall|k: int| 0 <= k < kept(wave, pos, candidates).len() implies candidates.contains(
        #[trigger] kept(wave, pos, candidates)[k],
    ) by {
        let item = kept(wave, pos, candidates)[k];
        assert(candidates.filter(pred).contains(item));
        candidates.lemma_filter_contains_rev(pred, item);
    }
}

/// Two waves with the same catalog, in which the same patterns are compatible at `pos`,
/// keep the same candidates there.
pub proof fn lemma_kept_same<T>(
    first: WaveView<T>,
    second: WaveView<T>,
    pos: ArrayPos,
    candidates: Seq<usize>,
)
    requires
        forall|k: usize| #[trigger]
            compatible(first.cells, pos, first.patterns[k as int]) == compatible(
                second.cells,
                pos,
                second.patterns[k as int],
            ),
    ensures
        kept(first, pos, candidates) == kept(second, pos, candidates),
    decreases candidates.len(),
{
    if candidates.len() > 0 {
        let front = candidates.drop_last();
        lemma_kept_same(first, second, pos, front);
        lemma_kept_push(first, pos, front, candidates.last());
        lemma_kept_push(second, pos, front, candidates.last());
        assert(front.push(candidates.last()) =~= candidates);
    } else {
        lemma_kept_push(first, pos, candidates, 0);
        lemma_kept_push(second, pos, candidates, 0);
        assert(candidates =~= Seq::empty());
    }
}

/// Whether a pattern is compatible depends on the decided cells alone.
pub proof fn lemma_compatible_decided<T>(
    first: GridView<CellView<T>>,
    second: GridView<CellView<T>>,
    pos: ArrayPos,
    pattern: PatternView<T>,
)
    requires
        first.wf(),
        second.wf(),
        first.width == second.width,
        first.height == second.height,
        forall|index: int|
            0 <= index < first.cells.len() && ((#[trigger] first.cells[index]) is Collapsed
                || second.cells[index] is Collapsed) ==> first.cells[index] == second.cells[index],
    ensures
        compatible(first, pos, pattern) == compatible(second, pos, pattern),
{
    assert forall|dx: int, dy: int|
        0 <= dx < pattern.side() && 0 <= dy < pattern.side() implies #[trigger] agrees(
        first,
        pos,
        pattern,
        dx,
        dy,
    ) == agrees(second, pos, pattern, dx, dy) by {
        let x = pos.x - pattern.radius + 1 + dx;
        let y = pos.y - pattern.radius + 1 + dy;
        if first.contains(x, y) {
            lemma_index_of_bounds(first.width, first.height, x, y);
            assert(first.cells[first.index_of(x, y)] is Collapsed || second.cells[first.index_of(
                x,
                y,
            )] is Collapsed ==> first.at(x, y) == second.at(x, y));
        }
    }
    if compatible(first, pos, pattern) {
        assert forall|dx: int, dy: int|
            0 <= dx < pattern.side() && 0 <= dy < pattern.side() implies #[trigger] agrees(
            second,
            pos,
            pattern,
            dx,
            dy,
        ) by {
            assert(agrees(first, pos, pattern, dx, dy));
        }
    }
    if compatible(second, pos, pattern) {
        assert forall|dx: int, dy: int|
            0 <= dx < pattern.side() && 0 <= dy < pattern.side() implies #[trigger] agrees(
            first,
            pos,
            pattern,
            dx,
            dy,
        ) by {
            assert(agrees(second, pos, pattern, dx, dy));
        }
    }
}

/// At most one position is that of the undecided cell of least entropy.
pub proof fn lemma_lowest_entropy_unique<T>(
    cells: GridView<CellView<T>>,
    first: ArrayPos,
    second: ArrayPos,
)
    requires
        cells.wf(),
        is_lowest_entropy(cells, first),
        is_lowest_entropy(cells, second),
    ensures
        first == second,
{
    lemma_index_of_bounds(cells.width, cells.height, first.x as int, first.y as int);
    lemma_index_of_bounds(cells.width, cells.height, second.x as int, second.y as int);
    let a = cells.index_of(first.x as int, first.y as int);
    let b = cells.index_of(second.x as int, second.y as int);
    assert(cells.cells[a] is SuperPos);
    assert(cells.cells[b] is SuperPos);
    assert(a == b);
}

/// There are no more undecided cells than cells, and none exactly if no cell is
/// undecided.
pub proof fn lemma_undecided_count<T>(cells: Seq<CellView<T>>)
    ensures
        undecided_count(cells) <= cells.len(),
        undecided_count(cells) == 0 <==> forall|index: int|
            0 <= index < cells.len() ==> !((#[trigger] cells[index]) is SuperPos),
    decreases cells.len(),
{
    if cells.len() > 0 {
        let front = cells.drop_last();
        lemma_undecided_count(front);
        if undecided_count(cells) == 0 {
            assert forall|index: int| 0 <= index < cells.len() implies !((
            #[trigger] cells[index]) is SuperPos) by {
                if index < front.len() {
                    assert(front[index] == cells[index]);
                }
            }
        } else if !(cells.last() is SuperPos) {
            let index = choose|index: int|
                0 <= index < front.len() && (#[trigger] front[index]) is SuperPos;
            assert(cells[index] is SuperPos);
        }
    }
}

/// Lists with undecided cells at the same places have as many of them.
pub proof fn lemma_undecided_count_same<T>(first: Seq<CellView<T>>, second: Seq<CellView<T>>)
    requires
        first.len() == second.len(),
        forall|index: int|
            0 <= index < first.len() ==> ((#[trigger] first[index]) is SuperPos
                <==> second[index] is SuperPos),
    ensures
        undecided_count(first) == undecided_count(second),
    decreases first.len(),
{
    if first.len() > 0 {
        assert forall|index: int| 0 <= index < first.drop_last().len() implies ((
        #[trigger] first.drop_last()[index]) is SuperPos
            <==> second.drop_last()[index] is SuperPos) by {
            assert(first[index] is SuperPos <==> second[index] is SuperPos);
        }
        lemma_undecided_count_same(first.drop_last(), second.drop_last());
        assert(first[first.len() - 1] is SuperPos <==> second[first.len() - 1] is SuperPos);
    }
}

/// Deciding one undecided cell leaves one undecided cell fewer.
pub proof fn lemma_undecided_count_decided<T>(cells: Seq<CellView<T>>, index: int, cell: CellView<T>)
    requires
        0 <= index < cells.len(),
        cells[index] is SuperPos,
        !(cell is SuperPos),
    ensures
        undecided_count(cells.update(index, cell)) + 1 == undecided_count(cells),
    decreases cells.len(),
{
    let after = cells.update(index, cell);
    if index == cells.len() - 1 {
        assert(after.drop_last() =~= cells.drop_last());
    } else {
        assert(after.drop_last() =~= cells.drop_last().update(index, cell));
        lemma_undecided_count_decided(cells.drop_last(), index, cell);
    }
}

/// Collapsing an undecided cell keeps the wave well formed, decides that one cell and
/// changes no other.
pub proof fn lemma_collapsed<T>(wave: WaveView<T>, pos: ArrayPos)
    requires
        wave.wf(),
        wave.cells.contains(pos.x as int, pos.y as int),
        wave.cells.at(pos.x as int, pos.y as int) is SuperPos,
    ensures
        collapsed(wave, pos).wf(),
        collapsed(wave, pos).radius == wave.radius,
        collapsed(wave, pos).patterns == wave.patterns,
        collapsed(wave, pos).cells.width == wave.cells.width,
        collapsed(wave, pos).cells.height == wave.cells.height,
        !(collapsed(wave, pos).cells.at(pos.x as int, pos.y as int) is SuperPos),
        narrows(wave.cells.cells, collapsed(wave, pos).cells.cells),
        undecided_count(collapsed(wave, pos).cells.cells) + 1 == undecided_count(wave.cells.cells),
        entropy(wave.cells.at(pos.x as int, pos.y as int)) <= 1 ==> collapsed(wave, pos).rng
            == wave.rng,
{
    lemma_index_of_bounds(wave.cells.width, wave.cells.height, pos.x as int, pos.y as int);
    let index = wave.cells.index_of(pos.x as int, pos.y as int);
    let after = collapsed(wave, pos);
    let cell = after.cells.cells[index];
    assert(after.cells.cells =~= wave.cells.cells.update(index, cell));
    lemma_undecided_count_decided(wave.cells.cells, index, cell);
    assert forall|other: int| 0 <= other < after.cells.cells.len() implies candidates_listed(
        #[trigger] after.cells.cells[other],
        after.patterns.len(),
    ) by {
        if other != index {
            assert(candidates_listed(wave.cells.cells[other], wave.patterns.len()));
        }
    }
}

/// Propagation keeps the wave well formed, decides nothing, and leaves no cell with more
/// candidates than it had.
pub proof fn lemma_propagated<T>(wave: WaveView<T>, center: ArrayPos)
    requires
        wave.wf(),
    ensures
        propagated(wave, center).wf(),
        propagated(wave, center).radius == wave.radius,
        propagated(wave, center).patterns == wave.patterns,
        propagated(wave, center).rng == wave.rng,
        propagated(wave, center).cells.width == wave.cells.width,
        propagated(wave, center).cells.height == wave.cells.height,
        narrows(wave.cells.cells, propagated(wave, center).cells.cells),
        undecided_count(propagated(wave, center).cells.cells) == undecided_count(wave.cells.cells),
        forall|index: int|
            0 <= index < wave.cells.cells.len() ==> ((#[trigger] wave.cells.cells[index]) is SuperPos
                <==> propagated(wave, center).cells.cells[index] is SuperPos),
{
    let after = propagated(wave, center);
    assert forall|index: int| 0 <= index < wave.cells.cells.len() implies {
        &&& ((#[trigger] wave.cells.cells[index]) is SuperPos <==> after.cells.cells[index] is SuperPos)
        &&& candidates_listed(after.cells.cells[index], after.patterns.len())
        &&& match wave.cells.cells[index] {
            CellView::SuperPos(candidates) => entropy(after.cells.cells[index])
                <= candidates.len(),
            decided => after.cells.cells[index] == decided,
        }
    } by {
        assert(candidates_listed(wave.cells.cells[index], wave.patterns.len()));
        if let CellView::SuperPos(candidates) = wave.cells.cells[index] {
            let pos = position_at(wave.cells.width, index);
            lemma_kept_is_part(wave, pos, candidates);
            assert forall|k: int| 0 <= k < kept(wave, pos, candidates).len() implies (
            #[trigger] kept(wave, pos, candidates)[k]) < wave.patterns.len() by {
                let item = kept(wave, pos, candidates)[k];
                assert(candidates.contains(item));
                let source = choose|source: int|
                    0 <= source < candidates.len() && candidates[source] == item;
                assert(candidates[source] < wave.patterns.len());
            }
        }
    }
    lemma_undecided_count_same(wave.cells.cells, after.cells.cells);
}

/// The place of the undecided cell of least entropy among the first `upto` cells, the
/// first of them; a negative number if none of those cells is undecided.
pub open spec fn lowest_upto<T>(cells: Seq<CellView<T>>, upto: int) -> int
    decreases upto,
{
    if upto <= 0 {
        -1
    } else {
        let best = lowest_upto(cells, upto - 1);
        if cells[upto - 1] is SuperPos && (best < 0 || entropy(cells[upto - 1]) < entropy(
            cells[best],
        )) {
            upto - 1
        } else {
            best
        }
    }
}

/// `lowest_upto` finds the undecided cell of least entropy, the first of them.
pub proof fn lemma_lowest_upto<T>(cells: Seq<CellView<T>>, upto: int)
    requires
        0 <= upto <= cells.len(),
    ensures
        -1 <= lowest_upto(cells, upto) < upto,
        lowest_upto(cells, upto) < 0 ==> forall|index: int|
            0 <= index < upto ==> !((#[trigger] cells[index]) is SuperPos),
        lowest_upto(cells, upto) >= 0 ==> {
            &&& cells[lowest_upto(cells, upto)] is SuperPos
            &&& forall|index: int|
                0 <= index < upto && (#[trigger] cells[index]) is SuperPos ==> {
                    ||| entropy(cells[lowest_upto(cells, upto)]) < entropy(cells[index])
                    ||| entropy(cells[lowest_upto(cells, upto)]) == entropy(cells[index])
                        && lowest_upto(cells, upto) <= index
                }
        },
    decreases upto,
{
    if upto > 0 {
        lemma_lowest_upto(cells, upto - 1);
    }
}

/// While a cell is undecided, some cell is the one to collapse next.
pub proof fn lemma_lowest_entropy_exists<T>(cells: GridView<CellView<T>>)
    requires
        cells.wf(),
        cells.width <= usize::MAX,
        cells.height <= usize::MAX,
        undecided_count(cells.cells) > 0,
    ensures
        observed(cells) is Some,
        is_lowest_entropy(cells, observed(cells).unwrap()),
{
    let count = cells.cells.len() as int;
    lemma_undecided_count(cells.cells);
    lemma_lowest_upto(cells.cells, count);
    let best = lowest_upto(cells.cells, count);
    let pos = position_at(cells.width, best);
    lemma_position_at_index(cells.width, cells.height, best);
    assert(cells.index_of(pos.x as int, pos.y as int) == best);
    assert(is_lowest_entropy(cells, pos));
}

/// When no cell is undecided, none is observed.
pub proof fn lemma_nothing_observed<T>(cells: GridView<CellView<T>>)
    requires
        cells.wf(),
        undecided_count(cells.cells) == 0,
    ensures
        observed(cells) is None,
{
    lemma_undecided_count(cells.cells);
    assert forall|pos: ArrayPos| !is_lowest_entropy(cells, pos) by {
        if cells.contains(pos.x as int, pos.y as int) {
            lemma_index_of_bounds(cells.width, cells.height, pos.x as int, pos.y as int);
            assert(!(cells.cells[cells.index_of(pos.x as int, pos.y as int)] is SuperPos));
        }
    }
}

/// `narrows` holds of a list and itself, and of the first and last of three lists of
/// which it holds of the first two and the last two.
pub proof fn lemma_narrows_chain<T>(
    first: Seq<CellView<T>>,
    second: Seq<CellView<T>>,
    third: Seq<CellView<T>>,
)
    requires
        narrows(first, second),
        narrows(second, third),
    ensures
        narrows(first, third),
        narrows(first, first),
{
    assert forall|index: int| 0 <= index < first.len() implies match #[trigger] first[index] {
        CellView::SuperPos(candidates) => third[index] is SuperPos ==> entropy(third[index])
            <= candidates.len(),
        decided => third[index] == decided,
    } by {
        let a = first[index];
        let b = second[index];
        let c = third[index];
        assert(match b {
            CellView::SuperPos(candidates) => c is SuperPos ==> entropy(c) <= candidates.len(),
            decided => c == decided,
        });
    }
}

/// A step keeps the wave well formed. No cell gets a candidate more, and no decided or
/// contradictory cell changes. While a cell is undecided, the step decides exactly one.
pub proof fn lemma_stepped<T>(wave: WaveView<T>)
    requires
        wave.wf(),
    ensures
        stepped(wave).wf(),
        stepped(wave).radius == wave.radius,
        stepped(wave).patterns == wave.patterns,
        stepped(wave).cells.width == wave.cells.width,
        stepped(wave).cells.height == wave.cells.height,
        narrows(wave.cells.cells, stepped(wave).cells.cells),
        undecided_count(wave.cells.cells) > 0 ==> undecided_count(stepped(wave).cells.cells) + 1
            == undecided_count(wave.cells.cells),
        undecided_count(wave.cells.cells) == 0 ==> stepped(wave) == wave,
{
    if undecided_count(wave.cells.cells) > 0 {
        lemma_lowest_entropy_exists(wave.cells);
        let pos = observed(wave.cells).unwrap();
        lemma_collapsed(wave, pos);
        lemma_propagated(collapsed(wave, pos), pos);
        lemma_narrows_chain(
            wave.cells.cells,
            collapsed(wave, pos).cells.cells,
            stepped(wave).cells.cells,
        );
    } else {
        lemma_nothing_observed(wave.cells);
        lemma_narrows_chain(wave.cells.cells, wave.cells.cells, wave.cells.cells);
    }
}

/// Steps keep the wave well formed, add no candidate and take no decision back, and
/// each decides one cell as long as one is undecided.
pub proof fn lemma_run<T>(wave: WaveView<T>, steps: nat)
    requires
        wave.wf(),
    ensures
        run(wave, steps).wf(),
        run(wave, steps).radius == wave.radius,
        run(wave, steps).patterns == wave.patterns,
        run(wave, steps).cells.width == wave.cells.width,
        run(wave, steps).cells.height == wave.cells.height,
        narrows(wave.cells.cells, run(wave, steps).cells.cells),
        undecided_count(run(wave, steps).cells.cells) == if steps <= undecided_count(
            wave.cells.cells,
        ) {
            undecided_count(wave.cells.cells) - steps
        } else {
            0
        },
    decreases steps,
{
    if steps == 0 {
        lemma_narrows_chain(wave.cells.cells, wave.cells.cells, wave.cells.cells);
    } else {
        let before = run(wave, (steps - 1) as nat);
        lemma_run(wave, (steps - 1) as nat);
        lemma_stepped(before);
        lemma_narrows_chain(wave.cells.cells, before.cells.cells, stepped(before).cells.cells);
    }
}

/// After one step for each undecided cell no cell is undecided, whatever the wave: at
/// most one step for each cell is needed, and further steps change nothing.
pub proof fn lemma_finished<T>(wave: WaveView<T>, more: nat)
    requires
        wave.wf(),
    ensures
        undecided_count(wave.cells.cells) <= wave.cells.width * wave.cells.height,
        finished(wave).wf(),
        undecided_count(finished(wave).cells.cells) == 0,
        forall|index: int|
            0 <= index < finished(wave).cells.cells.len() ==> !((
            #[trigger] finished(wave).cells.cells[index]) is SuperPos),
        narrows(wave.cells.cells, finished(wave).cells.cells),
        run(wave, undecided_count(wave.cells.cells) + more) == finished(wave),
    decreases more,
{
    lemma_undecided_count(wave.cells.cells);
    lemma_run(wave, undecided_count(wave.cells.cells));
    lemma_undecided_count(finished(wave).cells.cells);
    if more > 0 {
        lemma_finished(wave, (more - 1) as nat);
        lemma_stepped(finished(wave));
    }
}

/// Every decided cell shows the middle tile of a pattern of the catalog.
pub open spec fn shows_centers<T>(wave: WaveView<T>) -> bool {
    forall|index: int|
        0 <= index < wave.cells.cells.len() ==> (
        #[trigger] wave.cells.cells[index] matches CellView::Collapsed(tile) ==> exists|k: int|
            0 <= k < wave.patterns.len() && (#[trigger] wave.patterns[k]).center() == tile)
}

/// A step decides a cell only to the middle tile of a pattern of the catalog.
pub proof fn lemma_stepped_shows_centers<T>(wave: WaveView<T>)
    requires
        wave.wf(),
        shows_centers(wave),
    ensures
        shows_centers(stepped(wave)),
{
    if undecided_count(wave.cells.cells) > 0 {
        lemma_lowest_entropy_exists(wave.cells);
        let pos = observed(wave.cells).unwrap();
        lemma_index_of_bounds(wave.cells.width, wave.cells.height, pos.x as int, pos.y as int);
        let place = wave.cells.index_of(pos.x as int, pos.y as int);
        let middle = collapsed(wave, pos);
        lemma_collapsed(wave, pos);
        lemma_propagated(middle, pos);
        assert(candidates_listed(wave.cells.cells[place], wave.patterns.len()));
        assert forall|index: int| 0 <= index < middle.cells.cells.len() implies (
        #[trigger] middle.cells.cells[index] matches CellView::Collapsed(tile) ==> exists|k: int|
            0 <= k < wave.patterns.len() && (#[trigger] wave.patterns[k]).center() == tile) by {
            if index == place {
                let candidates = wave.cells.cells[place]->SuperPos_0;
                if candidates.len() == 1 {
                    assert(candidates[0] < wave.patterns.len());
                    assert(wave.patterns[candidates[0] as int].center()
                        == middle.cells.cells[index]->Collapsed_0);
                } else if candidates.len() > 1 {
                    let place = picked(wave.rng, candidates.len()).0;
                    assert(candidates[place] < wave.patterns.len());
                    assert(wave.patterns[candidates[place] as int].center()
                        == middle.cells.cells[index]->Collapsed_0);
                }
            } else {
                assert(middle.cells.cells[index] == wave.cells.cells[index]);
            }
        }
        let after = stepped(wave);
        assert forall|index: int| 0 <= index < after.cells.cells.len() implies (
        #[trigger] after.cells.cells[index] matches CellView::Collapsed(tile) ==> exists|k: int|
            0 <= k < after.patterns.len() && (#[trigger] after.patterns[k]).center() == tile) by {
            assert(middle.cells.cells[index] is SuperPos <==> after.cells.cells[index] is SuperPos);
            if after.cells.cells[index] is Collapsed {
                assert(after.cells.cells[index] == middle.cells.cells[index]);
            }
        }
    } else {
        lemma_nothing_observed(wave.cells);
    }
}

/// However many steps are taken, every decided cell shows the middle tile of a pattern
/// of the catalog, if that held before them; it holds of a wave with no decided cell.
pub proof fn lemma_run_shows_centers<T>(wave: WaveView<T>, steps: nat)
    requires
        wave.wf(),
        shows_centers(wave),
    ensures
        shows_centers(run(wave, steps)),
    decreases steps,
{
    if steps > 0 {
        lemma_run_shows_centers(wave, (steps - 1) as nat);
        lemma_run(wave, (steps - 1) as nat);
        lemma_stepped_shows_centers(run(wave, (steps - 1) as nat));
    }
}

/// Two waves made from the same sample, radius, size and seed end with the same cells,
/// and with their generators in the same state.
pub proof fn lemma_wave_deterministic<T>(
    sample: GridView<T>,
    radius: nat,
    width: nat,
    height: nat,
    seed: u64,
    first: WaveView<T>,
    second: WaveView<T>,
)
    requires
        first == finished(initial_wave(sample, radius, width, height, seed)),
        second == finished(initial_wave(sample, radius, width, height, seed)),
    ensures
        first.cells == second.cells,
        first.rng == second.rng,
{
}

/// A wave over the one pattern that shows `tile` everywhere, in which every cell is
/// undecided with that pattern as its candidate, or shows `tile`.
pub open spec fn is_uniform<T>(wave: WaveView<T>, tile: T) -> bool {
    &&& wave.wf()
    &&& wave.patterns == seq![uniform_pattern(wave.radius, tile)]
    &&& forall|index: int|
        0 <= index < wave.cells.cells.len() ==> {
            ||| (#[trigger] wave.cells.cells[index]) == CellView::<T>::SuperPos(seq![0usize])
            ||| wave.cells.cells[index] == CellView::Collapsed(tile)
        }
}

/// A step keeps a uniform wave uniform.
pub proof fn lemma_uniform_stepped<T>(wave: WaveView<T>, tile: T)
    requires
        is_uniform(wave, tile),
    ensures
        is_uniform(stepped(wave), tile),
{
    lemma_stepped(wave);
    if undecided_count(wave.cells.cells) > 0 {
        lemma_lowest_entropy_exists(wave.cells);
        let pos = observed(wave.cells).unwrap();
        let uniform = uniform_pattern(wave.radius, tile);
        let side = uniform.side();
        lemma_index_of_bounds(wave.cells.width, wave.cells.height, pos.x as int, pos.y as int);
        lemma_index_of_bounds(side, side, wave.radius - 1, wave.radius - 1);
        let place = wave.cells.index_of(pos.x as int, pos.y as int);
        assert(wave.cells.cells[place] == CellView::<T>::SuperPos(seq![0usize]));
        let middle = collapsed(wave, pos);
        lemma_collapsed(wave, pos);
        assert(middle.cells.cells[place] == CellView::Collapsed(tile));
        let after = propagated(middle, pos);
        lemma_propagated(middle, pos);
        assert forall|index: int| 0 <= index < after.cells.cells.len() implies {
            ||| (#[trigger] after.cells.cells[index]) == CellView::<T>::SuperPos(seq![0usize])
            ||| after.cells.cells[index] == CellView::Collapsed(tile)
        } by {
            assert(wave.cells.cells[index] == CellView::<T>::SuperPos(seq![0usize])
                || wave.cells.cells[index] == CellView::Collapsed(tile));
            if middle.cells.cells[index] is SuperPos {
                let here = position_at(middle.cells.width, index);
                assert forall|dx: int, dy: int|
                    0 <= dx < side && 0 <= dy < side implies #[trigger] agrees(
                    middle.cells,
                    here,
                    uniform,
                    dx,
                    dy,
                ) by {
                    let x = here.x - uniform.radius + 1 + dx;
                    let y = here.y - uniform.radius + 1 + dy;
                    lemma_index_of_bounds(side, side, dx, dy);
                    if middle.cells.contains(x, y) {
                        lemma_index_of_bounds(middle.cells.width, middle.cells.height, x, y);
                        let under = middle.cells.index_of(x, y);
                        assert(wave.cells.cells[under] == CellView::<T>::SuperPos(seq![0usize])
                            || wave.cells.cells[under] == CellView::Collapsed(tile));
                    }
                }
                assert(compatible(middle.cells, here, middle.patterns[0]));
                lemma_kept_push(middle, here, Seq::empty(), 0);
                assert(Seq::<usize>::empty().push(0) =~= seq![0usize]);
            }
        }
    }
}

/// Steps keep a uniform wave uniform.
pub proof fn lemma_uniform_run<T>(wave: WaveView<T>, tile: T, steps: nat)
    requires
        is_uniform(wave, tile),
    ensures
        is_uniform(run(wave, steps), tile),
    decreases steps,
{
    if steps > 0 {
        lemma_uniform_run(wave, tile, (steps - 1) as nat);
        lemma_uniform_stepped(run(wave, (steps - 1) as nat), tile);
    }
}

/// A wave made from a sample that shows one tile everywhere, and has room for a
/// window, ends with that tile in every cell: no cell ends contradictory.
pub proof fn lemma_uniform_sample_fills<T>(
    sample: GridView<T>,
    radius: nat,
    width: nat,
    height: nat,
    seed: u64,
    tile: T,
)
    requires
        sample.wf(),
        sample.width <= usize::MAX,
        sample.height <= usize::MAX,
        width <= usize::MAX,
        height <= usize::MAX,
        radius >= 1,
        2 * radius - 1 <= sample.width,
        2 * radius - 1 <= sample.height,
        forall|index: int| 0 <= index < sample.cells.len() ==> sample.cells[index] == tile,
    ensures
        catalog(sample, radius).len() == 1,
        finished(initial_wave(sample, radius, width, height, seed)).cells.cells.len() == width
            * height,
        forall|index: int|
            0 <= index < width * height ==> #[trigger] finished(
                initial_wave(sample, radius, width, height, seed),
            ).cells.cells[index] == CellView::Collapsed(tile),
{
    let wave = initial_wave(sample, radius, width, height, seed);
    crate::pattern::lemma_uniform_catalog(sample, radius, tile);
    crate::pattern::lemma_pattern_at(sample, ArrayPos { x: 0, y: 0 }, radius);
    assert(uniform_pattern(radius, tile).wf());
    assert(all_candidates(1) =~= seq![0usize]);
    assert(is_uniform(wave, tile));
    lemma_uniform_run(wave, tile, undecided_count(wave.cells.cells));
    lemma_finished(wave, 0);
    let end = finished(wave);
    assert forall|index: int| 0 <= index < width * height implies #[trigger] end.cells.cells[index]
        == CellView::Collapsed(tile) by {
        assert(!(end.cells.cells[index] is SuperPos));
    }
}

} // verus!
