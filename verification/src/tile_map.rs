//! A map of tiles, kept in blocks of at most ten by ten tiles.

use crate::tile_set::TileSet;
use crate::utils::lemma_index_of_bounds;
use vstd::prelude::*;

verus! {

/// The side of the largest block of a map.
pub const SUB_MAP_MAX_SIZE: usize = 10;

/// The place of a tile in the picture of a tile set: column `x`, row `y`.
#[derive(Copy, Clone, PartialEq, Eq, Debug, Hash, Default, Structural)]
pub struct TileIndex {
    pub x: u16,
    pub y: u16,
}

impl TileIndex {
    pub fn new(x: u16, y: u16) -> (index: TileIndex)
        ensures
            index == (TileIndex { x, y }),
    {
        TileIndex { x, y }
    }
}

pub fn tile_index(x: u16, y: u16) -> (index: TileIndex)
    ensures
        index == (TileIndex { x, y }),
{
    TileIndex { x, y }
}

/// A kind of tile: its names, and the pictures that are laid one over the other to
/// draw it.
#[derive(Clone, PartialEq, Eq, Debug, Hash, Default)]
pub struct TileData {
    pub name: String,
    pub debug_name: String,
    pub textures: Vec<TileIndex>,
}

impl TileData {
    pub fn new(textures: Vec<TileIndex>, name: &str, debug_name: &str) -> (data: TileData)
        ensures
            data.textures == textures,
            data.name@ == name@,
            data.debug_name@ == debug_name@,
    {
        TileData { textures, name: name.to_owned(), debug_name: debug_name.to_owned() }
    }
}

/// A cell of a map: its place in its block, and the kind of tile it shows, if any.
#[derive(Debug, Clone)]
pub struct Tile {
    x: u16,
    y: u16,
    index: u16,
    pub data: Option<usize>,
}

impl Tile {
    /// The column of the tile in its block.
    pub closed spec fn spec_x(&self) -> u16 {
        self.x
    }

    /// The row of the tile in its block.
    pub closed spec fn spec_y(&self) -> u16 {
        self.y
    }

    /// The place of the tile among the tiles of its block, row by row.
    pub closed spec fn spec_index(&self) -> u16 {
        self.index
    }

    /// The kind of tile that is shown, if any.
    pub closed spec fn spec_data(&self) -> Option<usize> {
        self.data
    }

    /// `other` stands at the same place of its block.
    pub open spec fn same_place(&self, other: Tile) -> bool {
        &&& self.spec_x() == other.spec_x()
        &&& self.spec_y() == other.spec_y()
        &&& self.spec_index() == other.spec_index()
    }

    fn new(x: u16, y: u16, index: u16, data: Option<usize>) -> (tile: Self)
        ensures
            tile.x == x,
            tile.y == y,
            tile.index == index,
            tile.data == data,
    {
        Tile { x, y, index, data }
    }

    pub fn x(&self) -> (x: u16)
        ensures
            x == self.spec_x(),
    {
        self.x
    }

    pub fn y(&self) -> (y: u16)
        ensures
            y == self.spec_y(),
    {
        self.y
    }

    pub fn index(&self) -> (index: u16)
        ensures
            index == self.spec_index(),
    {
        self.index
    }

    /// The two triangles of a square whose corners are numbered from `offset` on, row
    /// by row: three corner numbers for each triangle.
    pub fn get_triangles(&self, offset: u16) -> (corners: [u16; 6])
        requires
            offset + 3 <= u16::MAX,
        ensures
            corners@ == seq![
                offset,
                (offset + 1) as u16,
                (offset + 2) as u16,
                (offset + 1) as u16,
                (offset + 3) as u16,
                (offset + 2) as u16,
            ],
    {
        let base_index = offset;
        let corners = [
            base_index,
            base_index + 1,
            base_index + 2,
            base_index + 1,
            base_index + 3,
            base_index + 2,
        ];
        assert(corners@ =~= seq![
            offset,
            (offset + 1) as u16,
            (offset + 2) as u16,
            (offset + 1) as u16,
            (offset + 3) as u16,
            (offset + 2) as u16,
        ]);
        corners
    }
}

/// The number of blocks along a side of `len` tiles.
pub open spec fn block_count(len: int) -> int {
    len / 10 + if len % 10 != 0 {
        1int
    } else {
        0int
    }
}

/// The side of block `block` along a side of `len` tiles: ten, but for the last block,
/// which holds what is left.
pub open spec fn block_len(len: int, block: int) -> int {
    if block == block_count(len) - 1 && len % 10 != 0 {
        len % 10
    } else {
        10
    }
}

/// In a block of at most ten by ten tiles there are at most a hundred places.
proof fn lemma_block_places(width: int, height: int, x: int, y: int)
    requires
        1 <= width <= 10,
        1 <= height <= 10,
        0 <= x < width,
        0 <= y < height,
    ensures
        0 <= y * width <= y * width + x < width * height <= 100,
        (y * width + x) % width == x,
        (y * width + x) / width == y,
{
    lemma_index_of_bounds(width as nat, height as nat, x, y);
    assert(width * height <= 100) by (nonlinear_arith)
        requires
            1 <= width <= 10,
            1 <= height <= 10,
    ;
}

/// A block of a map.
#[derive(Debug, Clone)]
struct SubMap {
    width: u16,
    height: u16,
    x: usize,
    y: usize,
    tiles: Vec<Tile>,
}

impl SubMap {
    /// The block holds one tile for each of its places, and each tile knows its place.
    spec fn wf(&self) -> bool {
        &&& 1 <= self.width <= 10
        &&& 1 <= self.height <= 10
        &&& self.tiles@.len() == self.width * self.height
        &&& forall|i: int|
            0 <= i < self.tiles@.len() ==> {
                &&& (#[trigger] self.tiles@[i]).x == i % (self.width as int)
                &&& self.tiles@[i].y == i / (self.width as int)
                &&& self.tiles@[i].index == i
            }
    }

    /// The block of `width` by `height` tiles whose first tile is at column `x`, row `y`
    /// of the map, each tile showing what `gen` gives for its place in the map.
    fn new<F: Fn(usize, usize) -> Option<usize>>(
        width: u16,
        height: u16,
        x: usize,
        y: usize,
        gen: &F,
    ) -> (block: Self)
        requires
            1 <= width <= 10,
            1 <= height <= 10,
            x + width <= usize::MAX,
            y + height <= usize::MAX,
            forall|xi: usize, yi: usize|
                x <= xi < x + width && y <= yi < y + height ==> call_requires(gen, (xi, yi)),
        ensures
            block.wf(),
            block.width == width,
            block.height == height,
            block.x == x,
            block.y == y,
            forall|xi: int, yi: int|
                0 <= xi < width && 0 <= yi < height ==> call_ensures(
                    gen,
                    ((x + xi) as usize, (y + yi) as usize),
                    (#[trigger] block.tiles@[yi * width + xi]).data,
                ),
    {
        proof {
            lemma_block_places(width as int, height as int, 0, 0);
        }
        let count = (width * height) as usize;
        let mut tiles: Vec<Tile> = Vec::with_capacity(count);
        let mut made: usize = 0;
        while made < count
            invariant
                made <= count,
                tiles@.len() == made,
            decreases count - made,
        {
            tiles.push(Tile { x: 0, y: 0, index: 0, data: None });
            made = made + 1;
        }
        let mut xi: u16 = 0;
        while xi < width
            invariant
                xi <= width,
                1 <= width <= 10,
                1 <= height <= 10,
                x + width <= usize::MAX,
                y + height <= usize::MAX,
                tiles@.len() == width * height,
                forall|xk: usize, yk: usize|
                    x <= xk < x + width && y <= yk < y + height ==> call_requires(gen, (xk, yk)),
                forall|xk: int, yk: int|
                    0 <= xk < xi && 0 <= yk < height ==> {
                        let tile = #[trigger] tiles@[yk * width + xk];
                        &&& tile.x == xk
                        &&& tile.y == yk
                        &&& tile.index == yk * width + xk
                        &&& call_ensures(gen, ((x + xk) as usize, (y + yk) as usize), tile.data)
                    },
            decreases width - xi,
        {
            let mut yi: u16 = 0;
            while yi < height
                invariant
                    xi < width,
                    yi <= height,
                    1 <= width <= 10,
                    1 <= height <= 10,
                    x + width <= usize::MAX,
                    y + height <= usize::MAX,
                    tiles@.len() == width * height,
                    forall|xk: usize, yk: usize|
                        x <= xk < x + width && y <= yk < y + height ==> call_requires(
                            gen,
                            (xk, yk),
                        ),
                    forall|xk: int, yk: int|
                        0 <= xk < width && 0 <= yk < height && (xk < xi || (xk == xi && yk < yi))
                            ==> {
                            let tile = #[trigger] tiles@[yk * width + xk];
                            &&& tile.x == xk
                            &&& tile.y == yk
                            &&& tile.index == yk * width + xk
                            &&& call_ensures(
                                gen,
                                ((x + xk) as usize, (y + yk) as usize),
                                tile.data,
                            )
                        },
                decreases height - yi,
            {
                let data = gen(xi as usize + x, yi as usize + y);
                proof {
                    lemma_block_places(width as int, height as int, xi as int, yi as int);
                }
                let index = yi * width + xi;
                let ghost before = tiles@;
                tiles.set(index as usize, Tile::new(xi, yi, index, data));
                proof {
                    assert forall|xk: int, yk: int|
                        0 <= xk < width && 0 <= yk < height && (xk < xi || (xk == xi && yk < yi
                            + 1)) implies {
                        let tile = #[trigger] tiles@[yk * width + xk];
                        &&& tile.x == xk
                        &&& tile.y == yk
                        &&& tile.index == yk * width + xk
                        &&& call_ensures(gen, ((x + xk) as usize, (y + yk) as usize), tile.data)
                    } by {
                        lemma_block_places(width as int, height as int, xk, yk);
                        if xk != xi || yk != yi {
                            assert(yk * width + xk != index);
                            assert(tiles@[yk * width + xk] == before[yk * width + xk]);
                        }
                    }
                }
                yi = yi + 1;
            }
            xi = xi + 1;
        }
        let block = SubMap { width, height, x, y, tiles };
        proof {
            assert forall|i: int| 0 <= i < block.tiles@.len() implies {
                &&& (#[trigger] block.tiles@[i]).x == i % (width as int)
                &&& block.tiles@[i].y == i / (width as int)
                &&& block.tiles@[i].index == i
            } by {
                let xk = i % (width as int);
                let yk = i / (width as int);
                crate::utils::lemma_index_order(width as nat, i, 0, height as int);
                assert(height * width == width * height) by (nonlinear_arith);
                assert(block.tiles@[yk * width + xk].x == xk);
            }
        }
        block
    }

    fn at(&self, x: u16, y: u16) -> (tile: &Tile)
        requires
            self.wf(),
            x < self.width,
            y < self.height,
        ensures
            *tile == self.tiles@[y * self.width + x],
    {
        proof {
            lemma_block_places(self.width as int, self.height as int, x as int, y as int);
        }
        &self.tiles[(y * self.width + x) as usize]
    }

    fn at_mut(&mut self, x: u16, y: u16) -> (tile: &mut Tile)
        requires
            old(self).wf(),
            x < old(self).width,
            y < old(self).height,
        ensures
            *tile == old(self).tiles@[y * old(self).width + x],
            final(self).tiles@ == old(self).tiles@.update(y * old(self).width + x, *final(tile)),
            final(self).width == old(self).width,
            final(self).height == old(self).height,
            final(self).x == old(self).x,
            final(self).y == old(self).y,
    {
        proof {
            lemma_block_places(self.width as int, self.height as int, x as int, y as int);
        }
        &mut self.tiles[(y * self.width + x) as usize]
    }
}

/// A map of `width` by `height` tiles over a list of kinds of tiles.
#[derive(Debug, Clone)]
pub struct TileMap {
    width: usize,
    height: usize,
    tiles: Vec<TileData>,
    map: Vec<Vec<SubMap>>,
    tile_set: TileSet,
    sub_maps_x: usize,
    sub_maps_y: usize,
}

impl TileMap {
    /// The number of columns.
    pub closed spec fn spec_width(&self) -> nat {
        self.width as nat
    }

    /// The number of rows.
    pub closed spec fn spec_height(&self) -> nat {
        self.height as nat
    }

    /// The kinds of tiles.
    pub closed spec fn spec_tiles(&self) -> Vec<TileData> {
        self.tiles
    }

    /// The tile set.
    pub closed spec fn spec_tile_set(&self) -> TileSet {
        self.tile_set
    }

    /// The tile at column `x` and row `y`.
    pub closed spec fn spec_at(&self, x: int, y: int) -> Tile {
        let block = self.map@[y / 10]@[x / 10];
        block.tiles@[(y % 10) * block.width + x % 10]
    }

    /// The map is cut into blocks of ten by ten tiles, the last of a row or column as
    /// small as what is left; each block is well formed.
    pub closed spec fn wf(&self) -> bool {
        &&& self.sub_maps_x == block_count(self.width as int)
        &&& self.sub_maps_y == block_count(self.height as int)
        &&& self.map@.len() == self.sub_maps_y
        &&& forall|by: int|
            0 <= by < self.sub_maps_y ==> (#[trigger] self.map@[by])@.len() == self.sub_maps_x
        &&& forall|by: int, bx: int|
            0 <= by < self.sub_maps_y && 0 <= bx < self.sub_maps_x ==> {
                let block = #[trigger] self.map@[by]@[bx];
                &&& block.wf()
                &&& block.width == block_len(self.width as int, bx)
                &&& block.height == block_len(self.height as int, by)
                &&& block.x == bx * 10
                &&& block.y == by * 10
            }
    }

    /// Each tile of a well-formed map knows its place in its block.
    pub proof fn lemma_places(&self, x: int, y: int)
        requires
            self.wf(),
            0 <= x < self.spec_width(),
            0 <= y < self.spec_height(),
        ensures
            self.spec_at(x, y).spec_x() == x % 10,
            self.spec_at(x, y).spec_y() == y % 10,
            self.spec_at(x, y).spec_index() == (y % 10) * block_len(self.spec_width() as int, x / 10)
                + x % 10,
    {
        let block = self.map@[y / 10]@[x / 10];
        lemma_block_places(block.width as int, block.height as int, x % 10, y % 10);
    }

    /// The map of `width` by `height` tiles in which each tile shows what `generator`
    /// gives for its column and row.
    pub fn new<F: Fn(usize, usize) -> Option<usize>>(
        width: usize,
        height: usize,
        tile_set: TileSet,
        tiles: Vec<TileData>,
        generator: &F,
    ) -> (map: Self)
        requires
            forall|x: usize, y: usize| x < width && y < height ==> call_requires(generator, (x, y)),
        ensures
            map.wf(),
            map.spec_width() == width,
            map.spec_height() == height,
            map.spec_tiles() == tiles,
            map.spec_tile_set() == tile_set,
            forall|x: usize, y: usize|
                x < width && y < height ==> call_ensures(
                    generator,
                    (x, y),
                    (#[trigger] map.spec_at(x as int, y as int)).spec_data(),
                ),
    {
        let sub_maps_x = width / SUB_MAP_MAX_SIZE + (if width % SUB_MAP_MAX_SIZE != 0 {
            1
        } else {
            0
        });
        let sub_maps_y = height / SUB_MAP_MAX_SIZE + (if height % SUB_MAP_MAX_SIZE != 0 {
            1
        } else {
            0
        });
        let mut map: Vec<Vec<SubMap>> = Vec::with_capacity(sub_maps_y);
        let mut y: usize = 0;
        while y < sub_maps_y
            invariant
                y <= sub_maps_y,
                sub_maps_x == block_count(width as int),
                sub_maps_y == block_count(height as int),
                map@.len() == y,
                forall|x: usize, y: usize|
                    x < width && y < height ==> call_requires(generator, (x, y)),
                forall|by: int| 0 <= by < y ==> (#[trigger] map@[by])@.len() == sub_maps_x,
                forall|by: int, bx: int|
                    0 <= by < y && 0 <= bx < sub_maps_x ==> Self::block_made(
                        #[trigger] map@[by]@[bx],
                        width,
                        height,
                        bx,
                        by,
                        generator,
                    ),
            decreases sub_maps_y - y,
        {
            let mut row: Vec<SubMap> = Vec::with_capacity(sub_maps_x);
            let mut x: usize = 0;
            while x < sub_maps_x
                invariant
                    x <= sub_maps_x,
                    y < sub_maps_y,
                    sub_maps_x == block_count(width as int),
                    sub_maps_y == block_count(height as int),
                    row@.len() == x,
                    forall|x: usize, y: usize|
                        x < width && y < height ==> call_requires(generator, (x, y)),
                    forall|bx: int|
                        0 <= bx < x ==> Self::block_made(
                            #[trigger] row@[bx],
                            width,
                            height,
                            bx,
                            y as int,
                            generator,
                        ),
                decreases sub_maps_x - x,
            {
                let sub_width = if x == sub_maps_x - 1 {
                    if width % SUB_MAP_MAX_SIZE == 0 {
                        SUB_MAP_MAX_SIZE as u16
                    } else {
                        (width % SUB_MAP_MAX_SIZE) as u16
                    }
                } else {
                    SUB_MAP_MAX_SIZE as u16
                };
                let sub_height = if y == sub_maps_y - 1 {
                    if height % SUB_MAP_MAX_SIZE == 0 {
                        SUB_MAP_MAX_SIZE as u16
                    } else {
                        (height % SUB_MAP_MAX_SIZE) as u16
                    }
                } else {
                    SUB_MAP_MAX_SIZE as u16
                };
                let block = SubMap::new(
                    sub_width,
                    sub_height,
                    x * SUB_MAP_MAX_SIZE,
                    y * SUB_MAP_MAX_SIZE,
                    generator,
                );
                row.push(block);
                x = x + 1;
            }
            map.push(row);
            y = y + 1;
        }
        let map = TileMap { width, height, map, tiles, tile_set, sub_maps_x, sub_maps_y };
        proof {
            assert forall|x: usize, y: usize| x < width && y < height implies call_ensures(
                generator,
                (x, y),
                (#[trigger] map.spec_at(x as int, y as int)).spec_data(),
            ) by {
                let block = map.map@[y as int / 10]@[x as int / 10];
                assert(Self::block_made(block, width, height, x as int / 10, y as int / 10, generator));
                assert(call_ensures(
                    generator,
                    ((block.x + x % 10) as usize, (block.y + y % 10) as usize),
                    block.tiles@[(y % 10) * block.width + x % 10].data,
                ));
            }
        }
        map
    }

    /// `block` is block `bx` of row `by` of a map of `width` by `height` tiles made from
    /// `generator`.
    spec fn block_made<F: Fn(usize, usize) -> Option<usize>>(
        block: SubMap,
        width: usize,
        height: usize,
        bx: int,
        by: int,
        generator: &F,
    ) -> bool {
        &&& block.wf()
        &&& block.width == block_len(width as int, bx)
        &&& block.height == block_len(height as int, by)
        &&& block.x == bx * 10
        &&& block.y == by * 10
        &&& forall|xi: int, yi: int|
            0 <= xi < block.width && 0 <= yi < block.height ==> call_ensures(
                generator,
                ((block.x + xi) as usize, (block.y + yi) as usize),
                (#[trigger] block.tiles@[yi * block.width + xi]).data,
            )
    }

    pub fn width(&self) -> (width: usize)
        ensures
            width == self.spec_width(),
    {
        self.width
    }

    pub fn height(&self) -> (height: usize)
        ensures
            height == self.spec_height(),
    {
        self.height
    }

    pub fn tile_set(&self) -> (tile_set: &TileSet)
        ensures
            *tile_set == self.spec_tile_set(),
    {
        &self.tile_set
    }

    pub fn tiles(&self) -> (tiles: &Vec<TileData>)
        ensures
            *tiles == self.spec_tiles(),
    {
        &self.tiles
    }

    /// The tile at column `x` and row `y`.
    pub fn at(&self, x: usize, y: usize) -> (tile: &Tile)
        requires
            self.wf(),
            x < self.spec_width(),
            y < self.spec_height(),
        ensures
            *tile == self.spec_at(x as int, y as int),
    {
        let map_x = x / SUB_MAP_MAX_SIZE;
        let map_y = y / SUB_MAP_MAX_SIZE;
        let map_index_x = (x % SUB_MAP_MAX_SIZE) as u16;
        let map_index_y = (y % SUB_MAP_MAX_SIZE) as u16;
        assert(self.map@[map_y as int]@[map_x as int].wf());
        self.map[map_y][map_x].at(map_index_x, map_index_y)
    }

    /// The tile at column `x` and row `y`, to be changed. The map stays well formed
    /// when the tile stays at its place.
    pub fn at_mut(&mut self, x: usize, y: usize) -> (tile: &mut Tile)
        requires
            old(self).wf(),
            x < old(self).spec_width(),
            y < old(self).spec_height(),
        ensures
            *tile == old(self).spec_at(x as int, y as int),
            final(self).spec_at(x as int, y as int) == *final(tile),
            forall|ox: int, oy: int|
                0 <= ox < old(self).spec_width() && 0 <= oy < old(self).spec_height() && (ox != x
                    || oy != y) ==> #[trigger] final(self).spec_at(ox, oy) == old(self).spec_at(
                    ox,
                    oy,
                ),
            final(self).spec_width() == old(self).spec_width(),
            final(self).spec_height() == old(self).spec_height(),
            final(self).spec_tiles() == old(self).spec_tiles(),
            final(self).spec_tile_set() == old(self).spec_tile_set(),
            final(tile).same_place(*tile) ==> final(self).wf(),
    {
        let map_x = x / SUB_MAP_MAX_SIZE;
        let map_y = y / SUB_MAP_MAX_SIZE;
        let map_index_x = (x % SUB_MAP_MAX_SIZE) as u16;
        let map_index_y = (y % SUB_MAP_MAX_SIZE) as u16;
        assert(self.map@[map_y as int]@[map_x as int].wf());
        let ghost before = *self;
        proof {
            assert forall|ox: int, oy: int|
                0 <= ox < before.spec_width() && 0 <= oy < before.spec_height() implies {
                let other = before.map@[oy / 10]@[ox / 10];
                let place = (oy % 10) * other.width + ox % 10;
                &&& #[trigger] before.spec_at(ox, oy) == other.tiles@[place]
                &&& 0 <= place < other.tiles@.len()
                &&& place % (other.width as int) == ox % 10
                &&& place / (other.width as int) == oy % 10
                &&& other.wf()
            } by {
                let other = before.map@[oy / 10]@[ox / 10];
                assert(other.wf());
                lemma_block_places(other.width as int, other.height as int, ox % 10, oy % 10);
            }
            assert(before.spec_at(x as int, y as int) == before.spec_at(x as int, y as int));
        }
        self.map[map_y][map_x].at_mut(map_index_x, map_index_y)
    }
}

} // verus!
