use wave_function_collapse::wfc::Pattern;
use std::cmp::Ordering;
use wave_function_collapse::order::by_entropy;
use wave_function_collapse::utils::{Array2D, ArrayPos};
use wave_function_collapse::wfc::{Wave, WaveTile};

const A: u8 = b'A';
const B: u8 = b'B';

fn uniform(width: usize, height: usize, tile: u8) -> Array2D<u8> {
    Array2D::new(width, height, vec![tile; width * height])
}

fn one_b_in_the_middle() -> Array2D<u8> {
    let mut grid = uniform(5, 5, A);
    *grid.at_mut(2, 2) = B;
    grid
}

fn chessboard(side: usize) -> Array2D<u8> {
    let mut cells = Vec::new();
    for y in 0..side {
        for x in 0..side {
            cells.push(if (x + y) % 2 == 0 { A } else { B });
        }
    }
    Array2D::new(side, side, cells)
}

/// What a cell holds, in a form that compares.
fn snapshot(wave: &Wave<u8>) -> Vec<Result<u8, Option<Vec<usize>>>> {
    let grid = wave.grid();
    let mut cells = Vec::new();
    for y in 0..grid.height() {
        for x in 0..grid.width() {
            cells.push(match grid.at(x, y) {
                WaveTile::Collapsed(tile) => Ok(*tile),
                WaveTile::SuperPos(candidates) => Err(Some(candidates.clone())),
                WaveTile::Undefined => Err(None),
            });
        }
    }
    cells
}

fn undecided(wave: &Wave<u8>) -> usize {
    snapshot(wave)
        .iter()
        .filter(|cell| matches!(cell, Err(Some(_))))
        .count()
}

fn candidates_at(wave: &Wave<u8>, x: usize, y: usize) -> Vec<usize> {
    wave.grid().at(x, y).get_super_pos().clone()
}

#[test]
fn new_wave_has_every_cell_undecided_among_all_patterns() {
    let wave = Wave::new(&one_b_in_the_middle(), 2, 4, 3, 42);
    assert_eq!(wave.patterns().len(), 9);
    assert_eq!(wave.grid().width(), 4);
    assert_eq!(wave.grid().height(), 3);
    for cell in snapshot(&wave) {
        assert_eq!(cell, Err(Some(vec![0, 1, 2, 3, 4, 5, 6, 7, 8])));
    }
}

#[test]
fn new_wave_holds_the_catalog_of_the_sample() {
    let sample = one_b_in_the_middle();
    let wave = Wave::new(&sample, 2, 2, 2, 0);
    let catalog = Pattern::get_patterns(&sample, 2);
    assert_eq!(*wave.patterns(), catalog);
}

#[test]
fn wave_without_cells_is_finished() {
    let mut wave = Wave::new(&one_b_in_the_middle(), 2, 0, 0, 1);
    assert_eq!(wave.observe(), None);
    wave.step();
    wave.collapse_full();
    assert_eq!(snapshot(&wave), vec![]);
}

#[test]
fn observe_takes_the_first_cell_when_all_are_alike() {
    let wave = Wave::new(&one_b_in_the_middle(), 2, 4, 4, 42);
    assert_eq!(wave.observe(), Some(ArrayPos::new(0, 0)));
}

#[test]
fn observe_takes_the_first_cell_of_least_entropy() {
    let mut wave = Wave::new(&chessboard(4), 2, 5, 5, 7);
    wave.collapse(ArrayPos::new(2, 2));
    wave.propagate(ArrayPos::new(2, 2));
    assert_eq!(candidates_at(&wave, 0, 0).len(), 2);
    assert_eq!(candidates_at(&wave, 1, 1).len(), 1);
    assert_eq!(wave.observe(), Some(ArrayPos::new(1, 1)));
    wave.collapse(ArrayPos::new(1, 1));
    assert_eq!(wave.observe(), Some(ArrayPos::new(2, 1)));
}

#[test]
fn observe_finds_nothing_when_all_cells_are_decided() {
    let mut wave = Wave::new(&uniform(3, 3, A), 2, 3, 2, 5);
    wave.collapse_full();
    assert_eq!(wave.observe(), None);
}

#[test]
fn collapse_without_candidates_gives_a_contradiction() {
    let mut wave = Wave::new(&uniform(2, 2, A), 2, 2, 2, 3);
    assert_eq!(wave.patterns().len(), 0);
    assert_eq!(candidates_at(&wave, 1, 0), Vec::<usize>::new());
    wave.collapse(ArrayPos::new(1, 0));
    assert!(matches!(wave.grid().at(1, 0), WaveTile::Undefined));
    assert!(!wave.grid().at(1, 0).is_collapsed());
    assert_eq!(undecided(&wave), 3);
    wave.collapse_full();
    for cell in snapshot(&wave) {
        assert_eq!(cell, Err(None));
    }
}

#[test]
fn collapse_with_one_candidate_takes_it() {
    let mut wave = Wave::new(&uniform(3, 3, B), 2, 3, 3, 3);
    wave.collapse(ArrayPos::new(2, 1));
    assert!(wave.grid().at(2, 1).is_collapsed());
    assert!(matches!(wave.grid().at(2, 1), WaveTile::Collapsed(tile) if *tile == B));
    assert_eq!(undecided(&wave), 8);
}

#[test]
fn collapse_with_several_candidates_takes_the_center_of_one() {
    for seed in 0..20 {
        let mut wave = Wave::new(&one_b_in_the_middle(), 2, 3, 3, seed);
        wave.collapse(ArrayPos::new(1, 1));
        let cells = snapshot(&wave);
        assert!(cells[4] == Ok(A) || cells[4] == Ok(B));
        for (index, cell) in cells.iter().enumerate() {
            if index != 4 {
                assert_eq!(*cell, Err(Some(vec![0, 1, 2, 3, 4, 5, 6, 7, 8])));
            }
        }
    }
}

#[test]
fn collapse_draws_differ_between_seeds() {
    let mut seen_a = false;
    let mut seen_b = false;
    for seed in 0..200 {
        let mut wave = Wave::new(&one_b_in_the_middle(), 2, 1, 1, seed);
        wave.collapse(ArrayPos::new(0, 0));
        match wave.grid().at(0, 0) {
            WaveTile::Collapsed(tile) if *tile == A => seen_a = true,
            WaveTile::Collapsed(tile) if *tile == B => seen_b = true,
            _ => panic!("the cell must be decided"),
        }
    }
    assert!(seen_a && seen_b);
}

#[test]
fn check_pattern_compares_with_decided_cells_only() {
    let sample = chessboard(4);
    let mut wave = Wave::new(&sample, 2, 5, 5, 11);
    let catalog = Pattern::get_patterns(&sample, 2);
    assert_eq!(*catalog[0].center(), A);
    assert_eq!(*catalog[1].center(), B);
    for y in 0..5 {
        for x in 0..5 {
            assert!(wave.check_pattern(ArrayPos::new(x, y), &catalog[0]));
            assert!(wave.check_pattern(ArrayPos::new(x, y), &catalog[1]));
        }
    }
    wave.collapse(ArrayPos::new(2, 2));
    let shown = match wave.grid().at(2, 2) {
        WaveTile::Collapsed(tile) => *tile,
        _ => panic!("the cell must be decided"),
    };
    let (same, other) = if shown == A { (0, 1) } else { (1, 0) };
    assert!(wave.check_pattern(ArrayPos::new(2, 2), &catalog[same]));
    assert!(!wave.check_pattern(ArrayPos::new(2, 2), &catalog[other]));
    assert!(wave.check_pattern(ArrayPos::new(1, 1), &catalog[same]));
    assert!(!wave.check_pattern(ArrayPos::new(1, 1), &catalog[other]));
    assert!(wave.check_pattern(ArrayPos::new(1, 2), &catalog[other]));
    assert!(!wave.check_pattern(ArrayPos::new(1, 2), &catalog[same]));
    assert!(wave.check_pattern(ArrayPos::new(3, 2), &catalog[other]));
    assert!(!wave.check_pattern(ArrayPos::new(2, 3), &catalog[same]));
    assert!(wave.check_pattern(ArrayPos::new(0, 0), &catalog[same]));
    assert!(wave.check_pattern(ArrayPos::new(0, 0), &catalog[other]));
    assert!(wave.check_pattern(ArrayPos::new(4, 2), &catalog[other]));
    assert!(wave.check_pattern(ArrayPos::new(4, 2), &catalog[same]));
    assert!(wave.check_pattern(ArrayPos::new(9, 9), &catalog[other]));
    assert!(wave.check_pattern(ArrayPos::new(usize::MAX, 2), &catalog[other]));
}

#[test]
fn check_pattern_with_a_pattern_of_another_radius() {
    let sample = chessboard(6);
    let mut wave = Wave::new(&sample, 2, 5, 5, 11);
    wave.collapse(ArrayPos::new(0, 0));
    let shown = match wave.grid().at(0, 0) {
        WaveTile::Collapsed(tile) => *tile,
        _ => panic!("the cell must be decided"),
    };
    let wide = Pattern::from_grid(ArrayPos::new(2, 2), 3, &sample).unwrap();
    assert_eq!(*wide.center(), A);
    assert_eq!(wave.check_pattern(ArrayPos::new(2, 2), &wide), shown == A);
    assert_eq!(wave.check_pattern(ArrayPos::new(1, 2), &wide), shown == B);
    assert!(wave.check_pattern(ArrayPos::new(3, 2), &wide));
    let single = Pattern::from_grid(ArrayPos::new(0, 0), 1, &sample).unwrap();
    assert_eq!(wave.check_pattern(ArrayPos::new(0, 0), &single), shown == A);
    assert!(wave.check_pattern(ArrayPos::new(1, 0), &single));
}

#[test]
fn propagate_reaches_only_the_cells_around() {
    let mut wave = Wave::new(&chessboard(4), 2, 7, 7, 23);
    wave.collapse(ArrayPos::new(3, 3));
    let shown = match wave.grid().at(3, 3) {
        WaveTile::Collapsed(tile) => *tile,
        _ => panic!("the cell must be decided"),
    };
    let (same, other) = if shown == A { (0, 1) } else { (1, 0) };
    wave.propagate(ArrayPos::new(3, 3));
    for y in 0..7usize {
        for x in 0..7usize {
            if (x, y) == (3, 3) {
                assert!(wave.grid().at(x, y).is_collapsed());
            } else if (2..=4).contains(&x) && (2..=4).contains(&y) {
                let expected = if (x + y) % 2 == 0 { same } else { other };
                assert_eq!(candidates_at(&wave, x, y), vec![expected]);
            } else {
                assert_eq!(candidates_at(&wave, x, y), vec![0, 1]);
            }
        }
    }
}

#[test]
fn propagate_keeps_candidates_in_their_order() {
    let mut wave = Wave::new(&one_b_in_the_middle(), 2, 3, 1, 0);
    let before = candidates_at(&wave, 0, 0);
    wave.collapse(ArrayPos::new(1, 0));
    let shown = match wave.grid().at(1, 0) {
        WaveTile::Collapsed(tile) => *tile,
        _ => panic!("the cell must be decided"),
    };
    wave.propagate(ArrayPos::new(1, 0));
    let catalog = wave.patterns().clone();
    let left: Vec<usize> = before
        .iter()
        .copied()
        .filter(|index| *catalog[*index].data().at(2, 1) == shown)
        .collect();
    let right: Vec<usize> = before
        .iter()
        .copied()
        .filter(|index| *catalog[*index].data().at(0, 1) == shown)
        .collect();
    assert_eq!(candidates_at(&wave, 0, 0), left);
    assert_eq!(candidates_at(&wave, 2, 0), right);
    assert!(left.len() < before.len());
}

#[test]
fn propagate_changes_nothing_before_a_collapse() {
    let mut wave = Wave::new(&one_b_in_the_middle(), 2, 4, 4, 9);
    let before = snapshot(&wave);
    wave.propagate(ArrayPos::new(1, 1));
    assert_eq!(snapshot(&wave), before);
}

#[test]
fn step_decides_exactly_one_cell() {
    let mut wave = Wave::new(&one_b_in_the_middle(), 2, 4, 4, 42);
    for taken in 0..16 {
        assert_eq!(undecided(&wave), 16 - taken);
        wave.step();
    }
    assert_eq!(undecided(&wave), 0);
    let end = snapshot(&wave);
    wave.step();
    assert_eq!(snapshot(&wave), end);
}

#[test]
fn step_never_adds_a_candidate_nor_takes_a_decision_back() {
    for seed in 0..10 {
        let mut wave = Wave::new(&one_b_in_the_middle(), 2, 5, 4, seed);
        let mut before = snapshot(&wave);
        for _ in 0..20 {
            wave.step();
            let after = snapshot(&wave);
            for (old, new) in before.iter().zip(after.iter()) {
                match (old, new) {
                    (Err(Some(had)), Err(Some(has))) => {
                        assert!(has.len() <= had.len());
                        assert!(has.iter().all(|index| had.contains(index)));
                    }
                    (Err(Some(_)), _) => {}
                    (decided, now) => assert_eq!(decided, now),
                }
            }
            before = after;
        }
    }
}

#[test]
fn collapse_full_is_one_step_for_each_cell() {
    for seed in 0..10 {
        let sample = one_b_in_the_middle();
        let mut by_steps = Wave::new(&sample, 2, 4, 3, seed);
        let mut at_once = Wave::new(&sample, 2, 4, 3, seed);
        for _ in 0..12 {
            by_steps.step();
        }
        at_once.collapse_full();
        assert_eq!(by_steps.observe(), None);
        assert_eq!(at_once.observe(), None);
        assert_eq!(snapshot(&by_steps), snapshot(&at_once));
        assert_eq!(undecided(&at_once), 0);
    }
}

#[test]
fn collapse_full_with_seed_42_is_reproducible() {
    let sample = one_b_in_the_middle();
    let mut first = Wave::new(&sample, 2, 4, 4, 42);
    first.collapse_full();
    let mut second = Wave::new(&sample, 2, 4, 4, 42);
    second.collapse_full();
    assert_eq!(snapshot(&first), snapshot(&second));
    assert_eq!(snapshot(&first).len(), 16);
    for cell in snapshot(&first) {
        assert!(matches!(cell, Ok(A) | Ok(B) | Err(None)));
    }
}

#[test]
fn same_seed_gives_the_same_wave_at_every_step() {
    let sample = one_b_in_the_middle();
    for seed in [0u64, 1, 42, u64::MAX] {
        let mut first = Wave::new(&sample, 2, 6, 5, seed);
        let mut second = Wave::new(&sample, 2, 6, 5, seed);
        for _ in 0..30 {
            first.step();
            second.step();
            assert_eq!(snapshot(&first), snapshot(&second));
        }
    }
}

#[test]
fn a_copy_of_a_wave_goes_on_as_the_wave_does() {
    let mut wave = Wave::new(&one_b_in_the_middle(), 2, 5, 5, 77);
    wave.step();
    wave.step();
    let mut copy = wave.clone();
    wave.collapse_full();
    copy.collapse_full();
    assert_eq!(snapshot(&wave), snapshot(&copy));
}

#[test]
fn some_seeds_differ() {
    let sample = one_b_in_the_middle();
    let mut reference = Wave::new(&sample, 2, 6, 6, 0);
    reference.collapse_full();
    let mut differs = false;
    for seed in 1..20 {
        let mut wave = Wave::new(&sample, 2, 6, 6, seed);
        wave.collapse_full();
        if snapshot(&wave) != snapshot(&reference) {
            differs = true;
        }
    }
    assert!(differs);
}

#[test]
fn uniform_sample_fills_the_wave_with_its_tile() {
    for (width, height) in [(1, 1), (4, 4), (7, 2), (1, 9), (10, 10)] {
        for seed in [0u64, 42, 1234] {
            let mut wave = Wave::new(&uniform(5, 5, A), 2, width, height, seed);
            assert_eq!(wave.patterns().len(), 1);
            wave.collapse_full();
            let cells = snapshot(&wave);
            assert_eq!(cells.len(), width * height);
            for cell in cells {
                assert_eq!(cell, Ok(A));
            }
        }
    }
}

#[test]
fn chessboard_sample_gives_a_chessboard() {
    for seed in 0..10 {
        let mut wave = Wave::new(&chessboard(4), 2, 6, 5, seed);
        wave.collapse_full();
        let cells = snapshot(&wave);
        let first = cells[0].clone().unwrap();
        let second = if first == A { B } else { A };
        for y in 0..5 {
            for x in 0..6 {
                let expected = if (x + y) % 2 == 0 { first } else { second };
                assert_eq!(cells[y * 6 + x], Ok(expected));
            }
        }
    }
}

#[test]
fn collapse_of_a_single_candidate_asks_the_generator_for_nothing() {
    for seed in 0..50 {
        let sample = chessboard(4);
        let mut plain = Wave::new(&sample, 2, 9, 1, seed);
        let mut with_singles = Wave::new(&sample, 2, 9, 1, seed);
        for wave in [&mut plain, &mut with_singles] {
            wave.collapse(ArrayPos::new(0, 0));
            wave.propagate(ArrayPos::new(0, 0));
            wave.collapse(ArrayPos::new(4, 0));
            wave.propagate(ArrayPos::new(4, 0));
        }
        for x in [1usize, 3, 5] {
            assert_eq!(candidates_at(&with_singles, x, 0).len(), 1);
            with_singles.collapse(ArrayPos::new(x, 0));
        }
        for x in [7usize, 8] {
            assert_eq!(candidates_at(&plain, x, 0).len(), 2);
            plain.collapse(ArrayPos::new(x, 0));
            with_singles.collapse(ArrayPos::new(x, 0));
        }
        for x in [0usize, 4, 7, 8] {
            assert_eq!(snapshot(&plain)[x], snapshot(&with_singles)[x]);
        }
    }
}

#[test]
fn get_super_pos_gives_the_candidates() {
    let cell: WaveTile<u8> = WaveTile::SuperPos(vec![3, 1, 2]);
    assert_eq!(*cell.get_super_pos(), vec![3, 1, 2]);
    assert!(!cell.is_collapsed());
    let decided: WaveTile<u8> = WaveTile::Collapsed(A);
    assert!(decided.is_collapsed());
    let contradictory: WaveTile<u8> = WaveTile::Undefined;
    assert!(!contradictory.is_collapsed());
}

#[test]
fn steps_are_single_steps_one_after_the_other() {
    let sample = one_b_in_the_middle();
    for count in [0usize, 1, 5, 16, 40] {
        let mut one_by_one = Wave::new(&sample, 2, 4, 4, 9);
        let mut together = Wave::new(&sample, 2, 4, 4, 9);
        for _ in 0..count {
            one_by_one.step();
        }
        together.steps(count);
        assert_eq!(snapshot(&one_by_one), snapshot(&together));
        assert_eq!(undecided(&together), 16usize.saturating_sub(count));
    }
}

#[test]
fn shown_tile_of_each_kind_of_cell() {
    let decided: WaveTile<u8> = WaveTile::Collapsed(A);
    let undecided: WaveTile<u8> = WaveTile::SuperPos(vec![0, 1]);
    let contradictory: WaveTile<u8> = WaveTile::Undefined;
    assert_eq!(decided.shown(Some(B)), Some(A));
    assert_eq!(decided.shown(None), Some(A));
    assert_eq!(undecided.shown(Some(B)), None);
    assert_eq!(contradictory.shown(Some(B)), Some(B));
    assert_eq!(contradictory.shown(None), None);
}

#[test]
fn clone_of_a_cell_is_the_same_cell() {
    let undecided: WaveTile<u8> = WaveTile::SuperPos(vec![4, 2]);
    assert_eq!(*undecided.clone().get_super_pos(), vec![4, 2]);
    let decided: WaveTile<u8> = WaveTile::Collapsed(B);
    assert!(matches!(decided.clone(), WaveTile::Collapsed(tile) if tile == B));
    let contradictory: WaveTile<u8> = WaveTile::Undefined;
    assert!(matches!(contradictory.clone(), WaveTile::Undefined));
}

#[test]
fn decided_cells_show_the_center_of_a_pattern() {
    let sample = Array2D::new(4, 3, vec![3u8, 3, 5, 7, 3, 5, 5, 7, 9, 9, 9, 9]);
    let centers: Vec<u8> = Pattern::get_patterns(&sample, 2)
        .iter()
        .map(|pattern| *pattern.center())
        .collect();
    assert_eq!(centers, vec![5, 5]);
    for seed in 0..10 {
        let mut wave = Wave::new(&sample, 2, 5, 5, seed);
        wave.collapse_full();
        for cell in snapshot(&wave) {
            match cell {
                Ok(tile) => assert!(centers.contains(&tile)),
                Err(None) => {}
                Err(Some(_)) => panic!("no cell may be left undecided"),
            }
        }
    }
}

#[test]
fn cells_compare_by_entropy_alone() {
    let few = (ArrayPos::new(9, 9), 1);
    let many = (ArrayPos::new(0, 0), 4);
    let also_many = (ArrayPos::new(3, 1), 4);
    assert_eq!(by_entropy(&few, &many), Ordering::Less);
    assert_eq!(by_entropy(&many, &few), Ordering::Greater);
    assert_eq!(by_entropy(&many, &also_many), Ordering::Equal);
}

#[test]
fn observe_prefers_fewer_candidates_to_an_earlier_place() {
    let mut wave = Wave::new(&one_b_in_the_middle(), 2, 6, 6, 3);
    wave.collapse(ArrayPos::new(4, 4));
    wave.propagate(ArrayPos::new(4, 4));
    let mut least = usize::MAX;
    let mut expected = None;
    for y in 0..6 {
        for x in 0..6 {
            if let WaveTile::SuperPos(candidates) = wave.grid().at(x, y) {
                if candidates.len() < least {
                    least = candidates.len();
                    expected = Some(ArrayPos::new(x, y));
                }
            }
        }
    }
    assert!(least < 9);
    assert_eq!(wave.observe(), expected);
    assert_eq!(expected, Some(ArrayPos::new(3, 3)));
}
