use wave_function_collapse::utils::{Array2D, ArrayPos, NeighborPositionIterator};

fn numbered(width: usize, height: usize) -> Array2D<u32> {
    let mut data = Vec::new();
    for index in 0..width * height {
        data.push(index as u32);
    }
    Array2D::new(width, height, data)
}

fn collect(mut iter: NeighborPositionIterator) -> Vec<(usize, usize)> {
    let mut found = Vec::new();
    while let Some(pos) = iter.next() {
        found.push((pos.x, pos.y));
    }
    found
}

#[test]
fn grid_keeps_size_and_cells_row_by_row() {
    let grid = numbered(4, 3);
    assert_eq!(grid.width(), 4);
    assert_eq!(grid.height(), 3);
    assert_eq!(*grid.at(0, 0), 0);
    assert_eq!(*grid.at(3, 0), 3);
    assert_eq!(*grid.at(0, 1), 4);
    assert_eq!(*grid.at(2, 2), 10);
    assert_eq!(*grid.at(3, 2), 11);
}

#[test]
fn at_mut_changes_one_cell() {
    let mut grid = numbered(3, 3);
    *grid.at_mut(1, 2) = 100;
    for y in 0..3 {
        for x in 0..3 {
            let expected = if (x, y) == (1, 2) { 100 } else { (y * 3 + x) as u32 };
            assert_eq!(*grid.at(x, y), expected);
        }
    }
}

#[test]
fn empty_grid_has_no_cells() {
    let grid: Array2D<u32> = Array2D::new(0, 0, Vec::new());
    assert_eq!(grid.width(), 0);
    assert_eq!(grid.height(), 0);
    assert_eq!(collect(grid.get_neighbors(ArrayPos::new(0, 0), 2)), vec![]);
}

#[test]
fn grids_with_the_same_cells_are_equal() {
    let first = numbered(3, 2);
    let second = numbered(3, 2);
    let other_shape = numbered(2, 3);
    let mut other_cell = numbered(3, 2);
    *other_cell.at_mut(2, 1) = 9;
    assert!(first.equals(&second));
    assert!(!first.equals(&other_shape));
    assert!(!first.equals(&other_cell));
    assert_eq!(first, second);
}

#[test]
fn array_pos_new_sets_both_fields() {
    let pos = ArrayPos::new(3, 7);
    assert_eq!(pos.x, 3);
    assert_eq!(pos.y, 7);
    assert_eq!(pos, ArrayPos { x: 3, y: 7 });
}

#[test]
fn neighbors_of_the_middle_come_row_by_row_without_the_middle() {
    let grid = numbered(3, 3);
    let found = collect(grid.get_neighbors(ArrayPos::new(1, 1), 2));
    assert_eq!(
        found,
        vec![(0, 0), (1, 0), (2, 0), (0, 1), (2, 1), (0, 2), (1, 2), (2, 2)]
    );
}

#[test]
fn neighbors_of_a_corner_stay_in_the_grid() {
    let grid = numbered(3, 3);
    assert_eq!(
        collect(grid.get_neighbors(ArrayPos::new(0, 0), 2)),
        vec![(1, 0), (0, 1), (1, 1)]
    );
    assert_eq!(
        collect(grid.get_neighbors(ArrayPos::new(2, 2), 2)),
        vec![(1, 1), (2, 1), (1, 2)]
    );
}

#[test]
fn neighbors_at_radius_three_cover_five_by_five() {
    let grid = numbered(7, 7);
    let found = collect(grid.get_neighbors(ArrayPos::new(3, 3), 3));
    assert_eq!(found.len(), 24);
    assert_eq!(found[0], (1, 1));
    assert_eq!(found[4], (5, 1));
    assert_eq!(found[5], (1, 2));
    assert_eq!(found[11], (2, 3));
    assert_eq!(found[12], (4, 3));
    assert_eq!(found[23], (5, 5));
    assert!(!found.contains(&(3, 3)));
}

#[test]
fn radius_one_and_zero_have_no_neighbors() {
    let grid = numbered(3, 3);
    assert_eq!(collect(grid.get_neighbors(ArrayPos::new(1, 1), 1)), vec![]);
    assert_eq!(collect(grid.get_neighbors(ArrayPos::new(1, 1), 0)), vec![]);
}

#[test]
fn neighbors_of_a_position_outside_the_grid() {
    let grid = numbered(3, 3);
    assert_eq!(
        collect(grid.get_neighbors(ArrayPos::new(3, 1), 2)),
        vec![(2, 0), (2, 1), (2, 2)]
    );
    assert_eq!(collect(grid.get_neighbors(ArrayPos::new(10, 10), 2)), vec![]);
    assert_eq!(
        collect(grid.get_neighbors(ArrayPos::new(usize::MAX, usize::MAX), usize::MAX)),
        vec![(1, 1), (2, 1), (1, 2), (2, 2)]
    );
}

#[test]
fn iterator_made_directly_agrees_with_the_grid() {
    let grid = numbered(4, 2);
    let direct = NeighborPositionIterator::new(2, 4, 2, ArrayPos::new(2, 0));
    assert_eq!(
        collect(direct),
        collect(grid.get_neighbors(ArrayPos::new(2, 0), 2))
    );
    assert_eq!(
        collect(direct),
        vec![(1, 0), (3, 0), (1, 1), (2, 1), (3, 1)]
    );
}

#[test]
fn finished_iterator_stays_finished() {
    let mut iter = NeighborPositionIterator::new(2, 2, 1, ArrayPos::new(0, 0));
    assert_eq!(iter.next(), Some(ArrayPos::new(1, 0)));
    assert_eq!(iter.next(), None);
    assert_eq!(iter.next(), None);
}

#[test]
fn new_default_fills_with_the_default() {
    let grid: Array2D<Option<usize>> = Array2D::new_default(3, 2);
    assert_eq!(grid.width(), 3);
    assert_eq!(grid.height(), 2);
    for y in 0..2 {
        for x in 0..3 {
            assert_eq!(*grid.at(x, y), None);
        }
    }
    let numbers: Array2D<u32> = Array2D::new_default(0, 4);
    assert_eq!((numbers.width(), numbers.height()), (0, 4));
}

#[test]
fn walk_gives_every_cell_row_by_row() {
    let grid = numbered(3, 2);
    let mut iter = grid.into_iter();
    let mut found = Vec::new();
    while let Some((pos, cell)) = iter.next() {
        found.push((pos.x, pos.y, cell));
    }
    assert_eq!(
        found,
        vec![(0, 0, 0), (1, 0, 1), (2, 0, 2), (0, 1, 3), (1, 1, 4), (2, 1, 5)]
    );
    assert_eq!(iter.next(), None);
}

#[test]
fn walk_over_a_grid_without_cells_gives_nothing() {
    let no_columns: Array2D<u32> = Array2D::new(0, 3, Vec::new());
    assert_eq!(no_columns.into_iter().next(), None);
    let no_rows: Array2D<u32> = Array2D::new(3, 0, Vec::new());
    assert_eq!(no_rows.into_iter().next(), None);
}

#[test]
fn positions_add_by_column_and_row() {
    assert_eq!(ArrayPos::new(1, 2) + ArrayPos::new(10, 20), ArrayPos::new(11, 22));
    assert_eq!(ArrayPos::new(0, 0) + ArrayPos::default(), ArrayPos::new(0, 0));
}

#[test]
fn filled_grid_when_every_cell_holds_something() {
    let full = Array2D::new(2, 2, vec![Some(1u8), Some(2), Some(3), Some(4)]);
    assert_eq!(full.filled(), Some(Array2D::new(2, 2, vec![1u8, 2, 3, 4])));
    let hole = Array2D::new(2, 2, vec![Some(1u8), Some(2), None, Some(4)]);
    assert_eq!(hole.filled(), None);
    let empty: Array2D<Option<u8>> = Array2D::new(0, 5, Vec::new());
    assert_eq!(empty.filled(), Some(Array2D::new(0, 5, Vec::new())));
}

#[test]
fn clone_of_a_grid_is_equal() {
    let grid = numbered(4, 3);
    let copy = grid.clone();
    assert_eq!(copy, grid);
    assert_eq!((copy.width(), copy.height()), (4, 3));
    assert!(copy.equals(&grid));
}
