use wave_function_collapse::wfc::Pattern;
use wave_function_collapse::utils::{Array2D, ArrayPos};

const A: u8 = b'A';
const B: u8 = b'B';

fn numbered(width: usize, height: usize) -> Array2D<u32> {
    let mut data = Vec::new();
    for index in 0..width * height {
        data.push(index as u32);
    }
    Array2D::new(width, height, data)
}

fn uniform(width: usize, height: usize, tile: u8) -> Array2D<u8> {
    Array2D::new(width, height, vec![tile; width * height])
}

fn one_b_in_the_middle() -> Array2D<u8> {
    let mut grid = uniform(5, 5, A);
    *grid.at_mut(2, 2) = B;
    grid
}

fn tiles_of(pattern: &Pattern<u32>) -> Vec<u32> {
    let mut tiles = Vec::new();
    for y in 0..pattern.data().height() {
        for x in 0..pattern.data().width() {
            tiles.push(*pattern.data().at(x, y));
        }
    }
    tiles
}

#[test]
fn pattern_is_the_window_around_its_position() {
    let grid = numbered(5, 5);
    let pattern = Pattern::from_grid(ArrayPos::new(2, 2), 2, &grid).unwrap();
    assert_eq!(pattern.radius(), 2);
    assert_eq!(pattern.data().width(), 3);
    assert_eq!(pattern.data().height(), 3);
    assert_eq!(tiles_of(&pattern), vec![6, 7, 8, 11, 12, 13, 16, 17, 18]);
    assert_eq!(*pattern.center(), 12);
}

#[test]
fn pattern_size_and_center_at_every_position_and_radius() {
    let grid = numbered(7, 6);
    for radius in 1..5usize {
        for y in 0..6usize {
            for x in 0..7usize {
                let fits = x + 1 >= radius
                    && y + 1 >= radius
                    && x + radius <= 7
                    && y + radius <= 6;
                match Pattern::from_grid(ArrayPos::new(x, y), radius, &grid) {
                    Some(pattern) => {
                        assert!(fits);
                        assert_eq!(pattern.radius(), radius);
                        assert_eq!(pattern.data().width(), 2 * radius - 1);
                        assert_eq!(pattern.data().height(), 2 * radius - 1);
                        assert_eq!(*pattern.center(), *grid.at(x, y));
                        assert_eq!(
                            *pattern.data().at(0, 0),
                            *grid.at(x + 1 - radius, y + 1 - radius)
                        );
                    }
                    None => assert!(!fits),
                }
            }
        }
    }
}

#[test]
fn pattern_at_the_border_is_not_extractable() {
    let grid = numbered(5, 5);
    assert!(Pattern::from_grid(ArrayPos::new(0, 0), 2, &grid).is_none());
    assert!(Pattern::from_grid(ArrayPos::new(4, 2), 2, &grid).is_none());
    assert!(Pattern::from_grid(ArrayPos::new(2, 4), 2, &grid).is_none());
    assert!(Pattern::from_grid(ArrayPos::new(5, 5), 1, &grid).is_none());
    assert!(Pattern::from_grid(ArrayPos::new(2, 2), 4, &grid).is_none());
    assert!(Pattern::from_grid(ArrayPos::new(2, 2), usize::MAX, &grid).is_none());
    assert!(Pattern::from_grid(ArrayPos::new(2, 2), 3, &grid).is_some());
    assert!(Pattern::from_grid(ArrayPos::new(1, 3), 2, &grid).is_some());
}

#[test]
fn pattern_of_radius_one_is_one_tile() {
    let grid = numbered(3, 2);
    let pattern = Pattern::from_grid(ArrayPos::new(2, 1), 1, &grid).unwrap();
    assert_eq!(tiles_of(&pattern), vec![5]);
    assert_eq!(*pattern.center(), 5);
}

#[test]
fn patterns_with_the_same_tiles_are_equal_wherever_they_come_from() {
    let grid = uniform(5, 5, A);
    let first = Pattern::from_grid(ArrayPos::new(1, 1), 2, &grid).unwrap();
    let second = Pattern::from_grid(ArrayPos::new(3, 2), 2, &grid).unwrap();
    let smaller = Pattern::from_grid(ArrayPos::new(3, 2), 1, &grid).unwrap();
    assert!(first.equals(&second));
    assert!(!first.equals(&smaller));
    let marked = one_b_in_the_middle();
    let third = Pattern::from_grid(ArrayPos::new(1, 1), 2, &marked).unwrap();
    assert!(!first.equals(&third));
}

#[test]
fn catalog_of_a_uniform_sample_is_one_pattern() {
    let catalog = Pattern::get_patterns(&uniform(5, 5, A), 2);
    assert_eq!(catalog.len(), 1);
    assert_eq!(catalog[0].radius(), 2);
    for y in 0..3 {
        for x in 0..3 {
            assert_eq!(*catalog[0].data().at(x, y), A);
        }
    }
}

#[test]
fn catalog_of_a_sample_without_room_is_empty() {
    assert_eq!(Pattern::get_patterns(&uniform(2, 2, A), 2).len(), 0);
    assert_eq!(Pattern::get_patterns(&uniform(5, 2, A), 2).len(), 0);
    assert_eq!(Pattern::get_patterns(&uniform(0, 0, A), 1).len(), 0);
}

#[test]
fn catalog_with_one_b_has_a_pattern_for_each_place_of_b() {
    let sample = one_b_in_the_middle();
    let catalog = Pattern::get_patterns(&sample, 2);
    assert!(catalog.len() >= 2);
    assert_eq!(catalog.len(), 9);
    for first in 0..catalog.len() {
        for second in 0..catalog.len() {
            assert_eq!(catalog[first].equals(&catalog[second]), first == second);
        }
    }
    let mut with_b = 0;
    for pattern in &catalog {
        let mut count = 0;
        for y in 0..3 {
            for x in 0..3 {
                if *pattern.data().at(x, y) == B {
                    count += 1;
                }
            }
        }
        if count > 0 {
            with_b += 1;
        }
    }
    assert!(with_b >= 1);
}

#[test]
fn catalog_is_in_the_order_of_a_scan_column_by_column() {
    let sample = one_b_in_the_middle();
    let catalog = Pattern::get_patterns(&sample, 2);
    let scan = [
        (1, 1),
        (1, 2),
        (1, 3),
        (2, 1),
        (2, 2),
        (2, 3),
        (3, 1),
        (3, 2),
        (3, 3),
    ];
    for (entry, (x, y)) in scan.iter().enumerate() {
        let expected = Pattern::from_grid(ArrayPos::new(*x, *y), 2, &sample).unwrap();
        assert!(catalog[entry].equals(&expected));
        assert_eq!(*catalog[entry].data().at(3 - x, 3 - y), B);
    }
    assert_eq!(*catalog[4].center(), B);
    assert_eq!(*catalog[0].center(), A);
}

#[test]
fn catalog_keeps_the_first_of_equal_patterns() {
    let cells = vec![A, B, A, B, B, A, B, A, A, B, A, B, B, A, B, A];
    let sample = Array2D::new(4, 4, cells);
    let catalog = Pattern::get_patterns(&sample, 2);
    assert_eq!(catalog.len(), 2);
    assert_eq!(*catalog[0].center(), A);
    assert_eq!(*catalog[1].center(), B);
    assert_eq!(*catalog[0].data().at(0, 1), B);
    assert_eq!(*catalog[1].data().at(0, 1), A);
}

#[test]
fn catalog_of_single_tiles_lists_each_value_once() {
    let sample = Array2D::new(3, 2, vec![7u8, 8, 7, 9, 7, 8]);
    let catalog = Pattern::get_patterns(&sample, 1);
    let centers: Vec<u8> = catalog.iter().map(|pattern| *pattern.center()).collect();
    assert_eq!(centers, vec![7, 9, 8]);
}

#[test]
fn catalog_built_twice_is_the_same() {
    let sample = one_b_in_the_middle();
    let first = Pattern::get_patterns(&sample, 2);
    let second = Pattern::get_patterns(&sample, 2);
    assert_eq!(first.len(), second.len());
    for entry in 0..first.len() {
        assert!(first[entry].equals(&second[entry]));
    }
    assert_eq!(first, second);
}
