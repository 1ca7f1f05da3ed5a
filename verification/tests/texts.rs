use std::collections::HashMap;
use wave_function_collapse::wfc::Pattern;
use wave_function_collapse::text::{display_text, longest_label, spaces, SliceDisplay};
use wave_function_collapse::tile_map::{tile_index, TileData};
use wave_function_collapse::utils::{Array2D, ArrayPos};

const A: u8 = 1;
const B: u8 = 2;

fn numbered(width: usize, height: usize) -> Array2D<u32> {
    let mut data = Vec::new();
    for index in 0..width * height {
        data.push(index as u32);
    }
    Array2D::new(width, height, data)
}

fn marked() -> Pattern<u8> {
    let grid = Array2D::new(3, 3, vec![A, A, A, A, B, A, A, A, 9]);
    Pattern::from_grid(ArrayPos::new(1, 1), 2, &grid).unwrap()
}

#[test]
fn position_as_text() {
    assert_eq!(ArrayPos::new(3, 7).to_text(), "(3, 7)");
    assert_eq!(ArrayPos::new(0, 120).to_text(), "(0, 120)");
}

#[test]
fn grid_as_text() {
    assert_eq!(numbered(3, 2).to_text(), "[\n\t[0, 1, 2]\n\t[3, 4, 5]\n]\n");
    assert_eq!(numbered(1, 1).to_text(), "[\n\t[0]\n]\n");
    assert_eq!(numbered(0, 0).to_text(), "[\n]\n");
    assert_eq!(numbered(0, 2).to_text(), "[\n\t[]\n\t[]\n]\n");
}

#[test]
fn pattern_as_text() {
    let pattern = Pattern::from_grid(ArrayPos::new(1, 1), 2, &numbered(4, 3)).unwrap();
    assert_eq!(pattern.to_text(), "[\n\t[0, 1, 2]\n\t[4, 5, 6]\n\t[8, 9, 10]\n]\n");
}

#[test]
fn tile_data_as_text() {
    let house = TileData::new(vec![tile_index(3, 0), tile_index(0, 1)], "House", "H");
    assert_eq!(house.to_text(), "[(3, 0); (0, 1)]");
    let grass = TileData::new(vec![tile_index(3, 0)], "Grass", "G");
    assert_eq!(grass.to_text(), "[(3, 0)]");
    let nothing = TileData::new(vec![], "Nothing", "");
    assert_eq!(nothing.to_text(), "[]");
    assert_eq!(tile_index(12, 345).to_text(), "(12, 345)");
}

#[test]
fn list_as_text() {
    assert_eq!(SliceDisplay(&[1, 2, 3]).to_text(), "1,\n2,\n3");
    assert_eq!(SliceDisplay(&["only"]).to_text(), "only");
    let empty: [u8; 0] = [];
    assert_eq!(SliceDisplay(&empty).to_text(), "");
}

#[test]
fn spaces_and_display() {
    assert_eq!(spaces(0), "");
    assert_eq!(spaces(3), "   ");
    assert_eq!(display_text(&42u16), "42");
    assert_eq!(display_text(&"text"), "text");
}

#[test]
fn longest_label_counts_bytes() {
    let mut labels: HashMap<u8, String> = HashMap::new();
    assert_eq!(longest_label(&labels), None);
    labels.insert(A, String::from("G"));
    assert_eq!(longest_label(&labels), Some(1));
    labels.insert(B, String::from("Bridge"));
    labels.insert(3, String::from("ab"));
    assert_eq!(longest_label(&labels), Some(6));
    labels.insert(4, String::from("äöüß"));
    assert_eq!(longest_label(&labels), Some(8));
}

#[test]
fn pretty_print_pads_labels_to_the_longest() {
    let mut labels: HashMap<u8, String> = HashMap::new();
    labels.insert(A, String::from("G"));
    labels.insert(B, String::from("Br"));
    assert_eq!(
        marked().pretty_print(&labels, String::from("?")),
        "[G ][G ][G ]\n[G ][Br][G ]\n[G ][G ][? ]\n"
    );
    assert_eq!(
        marked().pretty_print(&labels, String::from("none")),
        "[ G  ][ G  ][ G  ]\n[ G  ][ Br ][ G  ]\n[ G  ][ G  ][none]\n"
    );
    assert_eq!(
        marked().pretty_print(&labels, String::from("12345")),
        "[  G  ][  G  ][  G  ]\n[  G  ][ Br  ][  G  ]\n[  G  ][  G  ][12345]\n"
    );
}

#[test]
fn pretty_print_without_labels() {
    let labels: HashMap<u8, String> = HashMap::new();
    assert_eq!(
        marked().pretty_print(&labels, String::new()),
        "[ ][ ][ ]\n[ ][ ][ ]\n[ ][ ][ ]\n"
    );
    assert_eq!(
        marked().pretty_print(&labels, String::from("xy")),
        "[xy][xy][xy]\n[xy][xy][xy]\n[xy][xy][xy]\n"
    );
    let single = Pattern::from_grid(ArrayPos::new(0, 0), 1, &Array2D::new(1, 1, vec![A])).unwrap();
    let mut empty_label: HashMap<u8, String> = HashMap::new();
    empty_label.insert(A, String::new());
    assert_eq!(single.pretty_print(&empty_label, String::new()), "[]\n");
}
