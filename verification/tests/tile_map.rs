use wave_function_collapse::tile_map::{tile_index, Tile, TileData, TileIndex, TileMap};
use wave_function_collapse::tile_set::TileSet;

fn kinds() -> Vec<TileData> {
    vec![
        TileData::new(vec![tile_index(3, 0)], "Grass", "G"),
        TileData::new(vec![tile_index(3, 0), tile_index(0, 1)], "House", "H"),
    ]
}

fn numbered(width: usize, height: usize) -> TileMap {
    TileMap::new(
        width,
        height,
        TileSet::new("tiles.png", 7, 52),
        kinds(),
        &|x: usize, y: usize| Some(y * 1000 + x),
    )
}

#[test]
fn tile_index_holds_column_and_row() {
    assert_eq!(TileIndex::new(4, 9), TileIndex { x: 4, y: 9 });
    assert_eq!(tile_index(4, 9), TileIndex::new(4, 9));
    assert_eq!(tile_index(0, u16::MAX).y, u16::MAX);
}

#[test]
fn tile_data_holds_names_and_textures() {
    let data = TileData::new(vec![tile_index(0, 0), tile_index(5, 1)], "Mountains", "M");
    assert_eq!(data.name, "Mountains");
    assert_eq!(data.debug_name, "M");
    assert_eq!(data.textures, vec![tile_index(0, 0), tile_index(5, 1)]);
    assert_eq!(data, data.clone());
}

#[test]
fn tile_set_divides_the_picture() {
    let set = TileSet::new("resources/TileSet.png", 7, 52);
    assert_eq!(set.texture_path(), "resources/TileSet.png");
    assert_eq!(set.tile_count_width(), 7);
    assert_eq!(set.tile_count_height(), 52);
    assert_eq!(set.tile_size(112, 832), (16, 16));
    assert_eq!(set.tile_size(113, 831), (16, 15));
    assert_eq!(set.tile_size(6, 0), (0, 0));
}

#[test]
fn map_shows_what_the_generator_gives() {
    let map = numbered(23, 12);
    assert_eq!(map.width(), 23);
    assert_eq!(map.height(), 12);
    assert_eq!(map.tiles().len(), 2);
    assert_eq!(map.tile_set().tile_count_width(), 7);
    for y in 0..12 {
        for x in 0..23 {
            assert_eq!(map.at(x, y).data, Some(y * 1000 + x));
        }
    }
}

#[test]
fn tiles_know_their_place_in_their_block() {
    let map = numbered(23, 12);
    let tile: &Tile = map.at(0, 0);
    assert_eq!((tile.x(), tile.y(), tile.index()), (0, 0, 0));
    let tile = map.at(9, 9);
    assert_eq!((tile.x(), tile.y(), tile.index()), (9, 9, 99));
    let tile = map.at(10, 9);
    assert_eq!((tile.x(), tile.y(), tile.index()), (0, 9, 90));
    let tile = map.at(22, 3);
    assert_eq!((tile.x(), tile.y(), tile.index()), (2, 3, 11));
    let tile = map.at(22, 11);
    assert_eq!((tile.x(), tile.y(), tile.index()), (2, 1, 5));
    let tile = map.at(5, 11);
    assert_eq!((tile.x(), tile.y(), tile.index()), (5, 1, 15));
}

#[test]
fn map_sizes_at_the_edges_of_blocks() {
    for (width, height) in [(1, 1), (10, 10), (11, 10), (10, 11), (20, 30), (9, 21)] {
        let map = numbered(width, height);
        assert_eq!(map.at(width - 1, height - 1).data, Some((height - 1) * 1000 + width - 1));
        assert_eq!(map.at(0, height - 1).data, Some((height - 1) * 1000));
        assert_eq!(map.at(width - 1, 0).data, Some(width - 1));
    }
    let empty = numbered(0, 0);
    assert_eq!((empty.width(), empty.height()), (0, 0));
    let flat = numbered(5, 0);
    assert_eq!((flat.width(), flat.height()), (5, 0));
}

#[test]
fn at_mut_changes_one_tile() {
    let mut map = numbered(12, 12);
    map.at_mut(11, 3).data = None;
    map.at_mut(0, 11).data = Some(7);
    for y in 0..12 {
        for x in 0..12 {
            let expected = match (x, y) {
                (11, 3) => None,
                (0, 11) => Some(7),
                _ => Some(y * 1000 + x),
            };
            assert_eq!(map.at(x, y).data, expected);
        }
    }
    assert_eq!(map.at(11, 3).index(), 7);
}

#[test]
fn triangles_of_a_square() {
    let map = numbered(1, 1);
    assert_eq!(map.at(0, 0).get_triangles(0), [0, 1, 2, 1, 3, 2]);
    assert_eq!(map.at(0, 0).get_triangles(8), [8, 9, 10, 9, 11, 10]);
    assert_eq!(
        map.at(0, 0).get_triangles(u16::MAX - 3),
        [65532, 65533, 65534, 65533, 65535, 65534]
    );
}
