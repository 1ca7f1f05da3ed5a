//! A tile set: a picture cut into a grid of equal tiles.

use vstd::prelude::*;
use vstd::string::StringExecFns;

verus! {

/// What is known of a tile set without its picture: where the picture is found, and how
/// many tiles it holds in a row and in a column.
#[derive(Debug, Clone, PartialEq, Eq)]
pub struct TileSet {
    texture_path: String,
    width: u16,
    height: u16,
}

impl TileSet {
    /// The path of the picture.
    pub closed spec fn spec_texture_path(&self) -> Seq<char> {
        self.texture_path@
    }

    /// The number of tiles in a row.
    pub closed spec fn spec_width(&self) -> u16 {
        self.width
    }

    /// The number of tiles in a column.
    pub closed spec fn spec_height(&self) -> u16 {
        self.height
    }

    /// The tile set of the picture at `path`, cut into `width` by `height` tiles.
    pub fn new(path: &str, width: u16, height: u16) -> (tile_set: TileSet)
        ensures
            tile_set.spec_texture_path() == path@,
            tile_set.spec_width() == width,
            tile_set.spec_height() == height,
    {
        TileSet { texture_path: String::from_str(path), width, height }
    }

    pub fn texture_path(&self) -> (path: &String)
        ensures
            path@ == self.spec_texture_path(),
    {
        &self.texture_path
    }

    pub fn tile_count_width(&self) -> (count: u16)
        ensures
            count == self.spec_width(),
    {
        self.width
    }

    pub fn tile_count_height(&self) -> (count: u16)
        ensures
            count == self.spec_height(),
    {
        self.height
    }

    /// The size of one tile in a picture of `texture_width` by `texture_height` pixels:
    /// the picture's size divided by the number of tiles, rounded down.
    pub fn tile_size(&self, texture_width: u16, texture_height: u16) -> (size: (u16, u16))
        requires
            self.spec_width() != 0,
            self.spec_height() != 0,
        ensures
            size.0 == texture_width / self.spec_width(),
            size.1 == texture_height / self.spec_height(),
    {
        (texture_width / self.tile_count_width(), texture_height / self.tile_count_height())
    }
}

} // verus!
