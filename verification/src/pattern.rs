//! Patterns: the square windows of a sample grid, and the catalog of the different
//! ones among them.

use crate::tile::{copy_of, plain_values};
use crate::utils::{
    cloned_grid, lemma_index_of_bounds, lemma_index_order, Array2D, ArrayPos, GridView,
};
use vstd::prelude::*;

verus! {

/// The mathematical content of a pattern: its radius and its tiles.
pub struct PatternView<T> {
    pub radius: nat,
    pub tiles: GridView<T>,
}

impl<T> PatternView<T> {
    /// The side of the square of tiles.
    pub open spec fn side(self) -> nat {
        (2 * self.radius - 1) as nat
    }

    /// The tiles form a square of side `2 * radius - 1`.
    pub open spec fn wf(self) -> bool {
        &&& self.radius >= 1
        &&& self.tiles.wf()
        &&& self.tiles.width == self.side()
        &&& self.tiles.height == self.side()
    }

    /// The tile in the middle of the square.
    pub open spec fn center(self) -> T {
        self.tiles.at(self.radius - 1, self.radius - 1)
    }
}

/// The square of side `2 * radius - 1` around `pos` lies wholly inside `grid`.
pub open spec fn window_fits<T>(grid: GridView<T>, pos: ArrayPos, radius: nat) -> bool {
    &&& radius >= 1
    &&& 0 <= pos.x - radius + 1
    &&& 0 <= pos.y - radius + 1
    &&& pos.x + radius <= grid.width
    &&& pos.y + radius <= grid.height
}

/// The tiles of `grid` in the square of side `2 * radius - 1` around `pos`, as a grid
/// of their own.
pub open spec fn window<T>(grid: GridView<T>, pos: ArrayPos, radius: nat) -> GridView<T> {
    let side = (2 * radius - 1) as nat;
    GridView {
        width: side,
        height: side,
        cells: Seq::new(
            side * side,
            |index: int|
                grid.at(
                    pos.x - radius + 1 + index % (side as int),
                    pos.y - radius + 1 + index / (side as int),
                ),
        ),
    }
}

/// The pattern of radius `radius` that `grid` shows around `pos`.
pub open spec fn pattern_at<T>(grid: GridView<T>, pos: ArrayPos, radius: nat) -> PatternView<T> {
    PatternView { radius, tiles: window(grid, pos, radius) }
}

/// The pattern around a position is a square of side `2 * radius - 1`, and the tile at
/// column `dx` and row `dy` of it is the tile of the grid that many columns and rows
/// after the window's first; the tile in its middle is the tile at the position itself.
pub proof fn lemma_pattern_at<T>(grid: GridView<T>, pos: ArrayPos, radius: nat)
    requires
        radius >= 1,
    ensures
        pattern_at(grid, pos, radius).wf(),
        pattern_at(grid, pos, radius).tiles.width == 2 * radius - 1,
        pattern_at(grid, pos, radius).tiles.height == 2 * radius - 1,
        forall|dx: int, dy: int|
            0 <= dx < 2 * radius - 1 && 0 <= dy < 2 * radius - 1 ==> #[trigger] pattern_at(
                grid,
                pos,
                radius,
            ).tiles.at(dx, dy) == grid.at(pos.x - radius + 1 + dx, pos.y - radius + 1 + dy),
        pattern_at(grid, pos, radius).center() == grid.at(pos.x as int, pos.y as int),
{
    let side = (2 * radius - 1) as nat;
    let tiles = window(grid, pos, radius);
    assert forall|dx: int, dy: int| 0 <= dx < side && 0 <= dy < side implies #[trigger] tiles.at(
        dx,
        dy,
    ) == grid.at(pos.x - radius + 1 + dx, pos.y - radius + 1 + dy) by {
        lemma_index_of_bounds(side, side, dx, dy);
    }
    assert(tiles.at(radius - 1, radius - 1) == grid.at(pos.x as int, pos.y as int));
}

/// A square window of a grid of tiles.
#[derive(Debug, Hash, PartialEq, Eq)]
pub struct Pattern<T> {
    radius: usize,
    tiles: Array2D<T>,
}

impl<T> View for Pattern<T> {
    type V = PatternView<T>;

    closed spec fn view(&self) -> PatternView<T> {
        PatternView { radius: self.radius as nat, tiles: self.tiles@ }
    }
}

impl<T: Clone> Clone for Pattern<T> {
    fn clone(&self) -> (copy: Self)
        ensures
            copy@.radius == self@.radius,
            cloned_grid(self@.tiles, copy@.tiles),
    {
        Pattern { radius: self.radius, tiles: self.tiles.clone() }
    }
}

/// Where tiles are plain values, a clone of a pattern has its content.
pub proof fn lemma_cloned_pattern<T: Clone + PartialEq>(pattern: Pattern<T>, copy: Pattern<T>)
    requires
        plain_values::<T>(),
        cloned(pattern, copy),
    ensures
        copy@ == pattern@,
{
    assert(copy@.tiles.cells =~= pattern@.tiles.cells);
}

/// Whether the window of radius `radius` around `pos` lies wholly inside `grid`.
fn is_in_grid<T>(pos: ArrayPos, radius: usize, grid: &Array2D<T>) -> (fits: bool)
    requires
        radius >= 1,
    ensures
        fits == window_fits(grid@, pos, radius as nat),
{
    pos.x >= radius - 1 && pos.y >= radius - 1 && radius <= grid.width() && pos.x <= grid.width()
        - radius && radius <= grid.height() && pos.y <= grid.height() - radius
}

impl<T> Pattern<T> {
    /// The tiles form a square of side `2 * radius - 1`.
    pub open spec fn wf(&self) -> bool {
        self@.wf()
    }

    pub fn data(&self) -> (tiles: &Array2D<T>)
        ensures
            tiles@ == self@.tiles,
    {
        &self.tiles
    }

    pub fn radius(&self) -> (radius: usize)
        ensures
            radius == self@.radius,
    {
        self.radius
    }

    /// The tile in the middle of the pattern.
    pub fn center(&self) -> (tile: &T)
        requires
            self.wf(),
        ensures
            *tile == self@.center(),
    {
        self.tiles.at(self.radius - 1, self.radius - 1)
    }
}

/// The position that comes `step`-th when a grid of `height` rows is scanned column by
/// column, each column from top to bottom.
pub open spec fn scan_position(height: nat, step: int) -> ArrayPos {
    ArrayPos { x: (step / (height as int)) as usize, y: (step % (height as int)) as usize }
}

/// The different patterns among those around the first `steps` positions of the scan,
/// each at the place where it was first seen.
pub open spec fn catalog_prefix<T>(sample: GridView<T>, radius: nat, steps: nat) -> Seq<
    PatternView<T>,
>
    decreases steps,
{
    if steps == 0 {
        Seq::empty()
    } else {
        let before = catalog_prefix(sample, radius, (steps - 1) as nat);
        let pos = scan_position(sample.height, steps - 1);
        let pattern = pattern_at(sample, pos, radius);
        if window_fits(sample, pos, radius) && !before.contains(pattern) {
            before.push(pattern)
        } else {
            before
        }
    }
}

/// The catalog of a sample: its different patterns of radius `radius`, in the order in
/// which a scan of the sample, column by column, first meets them.
pub open spec fn catalog<T>(sample: GridView<T>, radius: nat) -> Seq<PatternView<T>> {
    catalog_prefix(sample, radius, sample.width * sample.height)
}

/// The contents of a list of patterns.
pub open spec fn pattern_views<T>(patterns: Seq<Pattern<T>>) -> Seq<PatternView<T>> {
    patterns.map_values(|pattern: Pattern<T>| pattern@)
}

/// The pattern of radius `radius` that shows `tile` everywhere.
pub open spec fn uniform_pattern<T>(radius: nat, tile: T) -> PatternView<T> {
    let side = (2 * radius - 1) as nat;
    PatternView {
        radius,
        tiles: GridView { width: side, height: side, cells: Seq::new(side * side, |index: int| tile) },
    }
}

impl<T: Clone + PartialEq> Pattern<T> {
    /// Whether two patterns have the same radius and the same tiles.
    pub fn equals(&self, other: &Pattern<T>) -> (same: bool)
        requires
            self.wf(),
            other.wf(),
            plain_values::<T>(),
        ensures
            same == (self@ == other@),
    {
        self.radius == other.radius && self.tiles.equals(&other.tiles)
    }

    /// Whether a pattern with the content of `wanted` is among `patterns`.
    fn is_listed(patterns: &Vec<Pattern<T>>, wanted: &Pattern<T>) -> (listed: bool)
        requires
            wanted.wf(),
            forall|k: int| 0 <= k < patterns@.len() ==> (#[trigger] patterns@[k]).wf(),
            plain_values::<T>(),
        ensures
            listed == pattern_views(patterns@).contains(wanted@),
    {
        let mut index: usize = 0;
        while index < patterns.len()
            invariant
                index <= patterns@.len(),
                wanted.wf(),
                forall|k: int| 0 <= k < patterns@.len() ==> (#[trigger] patterns@[k]).wf(),
                plain_values::<T>(),
                forall|k: int| 0 <= k < index ==> pattern_views(patterns@)[k] != wanted@,
            decreases patterns@.len() - index,
        {
            if patterns[index].equals(wanted) {
                assert(pattern_views(patterns@)[index as int] == wanted@);
                return true;
            }
            index = index + 1;
        }
        false
    }

    /// The catalog of `grid`: its different patterns of radius `radius`, each once, in
    /// the order in which a scan of the grid, column by column, first meets them.
    pub fn get_patterns(grid: &Array2D<T>, radius: usize) -> (patterns: Vec<Pattern<T>>)
        requires
            radius != 0,
            grid.wf(),
            plain_values::<T>(),
        ensures
            pattern_views(patterns@) == catalog(grid@, radius as nat),
            forall|k: int| 0 <= k < patterns@.len() ==> (#[trigger] patterns@[k]).wf(),
    {
        let width = grid.width();
        let height = grid.height();
        let mut patterns: Vec<Pattern<T>> = Vec::new();
        let mut x: usize = 0;
        assert(pattern_views(patterns@) =~= catalog_prefix(grid@, radius as nat, 0));
        while x < width
            invariant
                x <= width,
                width == grid@.width,
                height == grid@.height,
                radius != 0,
                grid.wf(),
                plain_values::<T>(),
                0 <= x * height <= width * height,
                pattern_views(patterns@) == catalog_prefix(
                    grid@,
                    radius as nat,
                    (x * height) as nat,
                ),
                forall|k: int| 0 <= k < patterns@.len() ==> (#[trigger] patterns@[k]).wf(),
            decreases width - x,
        {
            let mut y: usize = 0;
            while y < height
                invariant
                    x < width,
                    y <= height,
                    width == grid@.width,
                    height == grid@.height,
                    radius != 0,
                    grid.wf(),
                    plain_values::<T>(),
                    0 <= x * height + y <= width * height,
                    pattern_views(patterns@) == catalog_prefix(
                        grid@,
                        radius as nat,
                        (x * height + y) as nat,
                    ),
                    forall|k: int| 0 <= k < patterns@.len() ==> (#[trigger] patterns@[k]).wf(),
                decreases height - y,
            {
                proof {
                    lemma_scan_position(width as nat, height as nat, x as int, y as int);
                }
                let ghost before = pattern_views(patterns@);
                if let Some(pattern) = Self::from_grid(ArrayPos::new(x, y), radius, grid) {
                    if !Self::is_listed(&patterns, &pattern) {
                        patterns.push(pattern);
                        assert(pattern_views(patterns@) =~= before.push(pattern@));
                    }
                }
                y = y + 1;
            }
            proof {
                assert((x + 1) * height == x * height + height) by (nonlinear_arith);
            }
            x = x + 1;
        }
        proof {
            assert(width * height == grid@.width * grid@.height);
        }
        patterns
    }

    /// Cuts the pattern of radius `radius` around `pos` out of `grid`, if the window
    /// lies wholly inside the grid.
    pub fn from_grid(pos: ArrayPos, radius: usize, grid: &Array2D<T>) -> (pattern: Option<
        Pattern<T>,
    >)
        requires
            radius != 0,
            grid.wf(),
            plain_values::<T>(),
        ensures
            pattern.is_some() <==> window_fits(grid@, pos, radius as nat),
            pattern matches Some(p) ==> {
                &&& p.wf()
                &&& p@ == pattern_at(grid@, pos, radius as nat)
                &&& p@.tiles.width == 2 * radius - 1
                &&& p@.tiles.height == 2 * radius - 1
                &&& p@.center() == grid@.at(pos.x as int, pos.y as int)
            },
    {
        if !is_in_grid(pos, radius, grid) {
            return None;
        }
        let width = grid.width();
        let height = grid.height();
        let pattern_size = (radius - 1) * 2 + 1;
        let first_x = pos.x - (radius - 1);
        let first_y = pos.y - (radius - 1);
        let ghost wanted = window(grid@, pos, radius as nat);
        proof {
            assert(pattern_size * pattern_size <= grid@.width * grid@.height)
                by (nonlinear_arith)
                requires
                    0 <= pattern_size <= grid@.width,
                    pattern_size <= grid@.height,
            ;
            assert(grid@.cells.len() <= usize::MAX) by {
                grid.lemma_len();
            }
        }
        let mut data: Vec<T> = Vec::with_capacity(pattern_size * pattern_size);
        let mut dy: usize = 0;
        while dy < pattern_size
            invariant
                dy <= pattern_size,
                pattern_size == 2 * radius - 1,
                grid.wf(),
                plain_values::<T>(),
                window_fits(grid@, pos, radius as nat),
                first_x == pos.x - radius + 1,
                first_y == pos.y - radius + 1,
                first_x + pattern_size <= width == grid@.width,
                first_y + pattern_size <= height == grid@.height,
                wanted == window(grid@, pos, radius as nat),
                data@.len() == dy * pattern_size,
                dy * pattern_size <= pattern_size * pattern_size,
                forall|k: int| 0 <= k < data@.len() ==> data@[k] == wanted.cells[k],
            decreases pattern_size - dy,
        {
            let mut dx: usize = 0;
            while dx < pattern_size
                invariant
                    dx <= pattern_size,
                    dy < pattern_size,
                    pattern_size == 2 * radius - 1,
                    grid.wf(),
                    plain_values::<T>(),
                    window_fits(grid@, pos, radius as nat),
                    first_x == pos.x - radius + 1,
                    first_y == pos.y - radius + 1,
                    first_x + pattern_size <= width == grid@.width,
                    first_y + pattern_size <= height == grid@.height,
                    wanted == window(grid@, pos, radius as nat),
                    data@.len() == dy * pattern_size + dx,
                    dy * pattern_size + dx <= pattern_size * pattern_size,
                    forall|k: int| 0 <= k < data@.len() ==> data@[k] == wanted.cells[k],
                decreases pattern_size - dx,
            {
                proof {
                    lemma_index_of_bounds(
                        pattern_size as nat,
                        pattern_size as nat,
                        dx as int,
                        dy as int,
                    );
                    assert(dy * pattern_size + dx + 1 <= pattern_size * pattern_size)
                        by (nonlinear_arith)
                        requires
                            0 <= dx < pattern_size,
                            0 <= dy < pattern_size,
                    ;
                }
                data.push(copy_of(grid.at(first_x + dx, first_y + dy)));
                dx = dx + 1;
            }
            proof {
                assert((dy + 1) * pattern_size == dy * pattern_size + pattern_size)
                    by (nonlinear_arith);
                assert((dy + 1) * pattern_size <= pattern_size * pattern_size)
                    by (nonlinear_arith)
                    requires
                        0 <= dy < pattern_size,
                ;
            }
            dy = dy + 1;
        }
        assert(data@ =~= wanted.cells);
        proof {
            lemma_pattern_at(grid@, pos, radius as nat);
        }
        Some(Pattern { radius, tiles: Array2D::new(pattern_size, pattern_size, data) })
    }
}

/// The scan reaches column `x`, row `y` of a grid of `height` rows at step `x * height + y`.
pub proof fn lemma_scan_position(width: nat, height: nat, x: int, y: int)
    requires
        0 <= x < width <= usize::MAX,
        0 <= y < height <= usize::MAX,
    ensures
        0 <= x * height + y < width * height,
        scan_position(height, x * height + y) == (ArrayPos { x: x as usize, y: y as usize }),
{
    lemma_index_of_bounds(height, width, y, x);
    assert(height * width == width * height) by (nonlinear_arith);
}

/// Every step of the scan of a grid looks at a position of the grid.
pub proof fn lemma_scan_position_in_grid(width: nat, height: nat, step: int)
    requires
        0 <= step < width * height,
        width <= usize::MAX,
        height <= usize::MAX,
    ensures
        scan_position(height, step).x == step / (height as int),
        scan_position(height, step).y == step % (height as int),
        scan_position(height, step).x < width,
        scan_position(height, step).y < height,
        step == scan_position(height, step).x * height + scan_position(height, step).y,
{
    assert(height > 0) by (nonlinear_arith)
        requires
            0 <= step < width * height,
    ;
    lemma_index_order(height, step, 0, width as int);
}

/// A catalog never loses an entry as the scan goes on: what more steps give starts with
/// what fewer steps gave.
pub proof fn lemma_catalog_prefix_grows<T>(
    sample: GridView<T>,
    radius: nat,
    fewer: nat,
    more: nat,
)
    requires
        fewer <= more,
    ensures
        catalog_prefix(sample, radius, fewer).is_prefix_of(catalog_prefix(sample, radius, more)),
    decreases more - fewer,
{
    if fewer < more {
        lemma_catalog_prefix_grows(sample, radius, fewer, (more - 1) as nat);
    }
}

/// No pattern stands twice in a catalog.
pub proof fn lemma_catalog_prefix_no_duplicates<T>(sample: GridView<T>, radius: nat, steps: nat)
    ensures
        catalog_prefix(sample, radius, steps).no_duplicates(),
    decreases steps,
{
    if steps > 0 {
        lemma_catalog_prefix_no_duplicates(sample, radius, (steps - 1) as nat);
    }
}

/// Every entry of a catalog is the pattern around a scanned position at which the window
/// fits.
pub proof fn lemma_catalog_prefix_sound<T>(
    sample: GridView<T>,
    radius: nat,
    steps: nat,
    entry: int,
) -> (step: int)
    requires
        0 <= entry < catalog_prefix(sample, radius, steps).len(),
    ensures
        0 <= step < steps,
        window_fits(sample, scan_position(sample.height, step), radius),
        catalog_prefix(sample, radius, steps)[entry] == pattern_at(
            sample,
            scan_position(sample.height, step),
            radius,
        ),
    decreases steps,
{
    let before = catalog_prefix(sample, radius, (steps - 1) as nat);
    if entry < before.len() {
        lemma_catalog_prefix_sound(sample, radius, (steps - 1) as nat, entry)
    } else {
        steps - 1
    }
}

/// The pattern around every scanned position at which the window fits is in the catalog.
pub proof fn lemma_catalog_prefix_complete<T>(
    sample: GridView<T>,
    radius: nat,
    steps: nat,
    step: int,
)
    requires
        0 <= step < steps,
        window_fits(sample, scan_position(sample.height, step), radius),
    ensures
        catalog_prefix(sample, radius, steps).contains(
            pattern_at(sample, scan_position(sample.height, step), radius),
        ),
    decreases steps,
{
    let before = catalog_prefix(sample, radius, (steps - 1) as nat);
    let now = catalog_prefix(sample, radius, steps);
    let pattern = pattern_at(sample, scan_position(sample.height, step), radius);
    if step < steps - 1 {
        lemma_catalog_prefix_complete(sample, radius, (steps - 1) as nat, step);
        let place = choose|place: int| 0 <= place < before.len() && before[place] == pattern;
        assert(now[place] == pattern);
    } else if before.contains(pattern) {
        let place = choose|place: int| 0 <= place < before.len() && before[place] == pattern;
        assert(now[place] == pattern);
    } else {
        assert(now[now.len() - 1] == pattern);
    }
}

/// Every entry of a catalog is a square of side `2 * radius - 1` cut out of the sample:
/// it is the pattern around a position at which the window fits, and its middle tile is
/// the tile of the sample at that position.
pub proof fn lemma_catalog_entries<T>(sample: GridView<T>, radius: nat, entry: int) -> (pos:
    ArrayPos)
    requires
        radius >= 1,
        sample.width <= usize::MAX,
        sample.height <= usize::MAX,
        0 <= entry < catalog(sample, radius).len(),
    ensures
        pos.x < sample.width,
        pos.y < sample.height,
        window_fits(sample, pos, radius),
        catalog(sample, radius)[entry] == pattern_at(sample, pos, radius),
        catalog(sample, radius)[entry].wf(),
        catalog(sample, radius)[entry].radius == radius,
        catalog(sample, radius)[entry].tiles.width == 2 * radius - 1,
        catalog(sample, radius)[entry].tiles.height == 2 * radius - 1,
        catalog(sample, radius)[entry].center() == sample.at(pos.x as int, pos.y as int),
{
    let step = lemma_catalog_prefix_sound(sample, radius, sample.width * sample.height, entry);
    let pos = scan_position(sample.height, step);
    assert(sample.height * sample.width == sample.width * sample.height) by (nonlinear_arith);
    lemma_scan_position_in_grid(sample.width, sample.height, step);
    lemma_pattern_at(sample, pos, radius);
    pos
}

/// The pattern around every position of the sample at which the window fits is an entry
/// of the catalog, and no pattern is an entry twice.
pub proof fn lemma_catalog_complete<T>(sample: GridView<T>, radius: nat, pos: ArrayPos)
    requires
        sample.width <= usize::MAX,
        sample.height <= usize::MAX,
        pos.x < sample.width,
        pos.y < sample.height,
        window_fits(sample, pos, radius),
    ensures
        catalog(sample, radius).contains(pattern_at(sample, pos, radius)),
        catalog(sample, radius).no_duplicates(),
{
    lemma_scan_position(sample.width, sample.height, pos.x as int, pos.y as int);
    lemma_catalog_prefix_complete(
        sample,
        radius,
        sample.width * sample.height,
        pos.x * sample.height + pos.y,
    );
    lemma_catalog_prefix_no_duplicates(sample, radius, sample.width * sample.height);
}

/// Two catalogs of one sample at one radius hold the same patterns in the same order.
pub proof fn lemma_catalog_deterministic<T>(
    sample: GridView<T>,
    radius: nat,
    first: Seq<Pattern<T>>,
    second: Seq<Pattern<T>>,
)
    requires
        pattern_views(first) == catalog(sample, radius),
        pattern_views(second) == catalog(sample, radius),
    ensures
        first.len() == second.len(),
        forall|k: int| 0 <= k < first.len() ==> (#[trigger] first[k])@ == second[k]@,
{
    assert(pattern_views(first).len() == first.len());
    assert(pattern_views(second).len() == second.len());
    assert forall|k: int| 0 <= k < first.len() implies (#[trigger] first[k])@ == second[k]@ by {
        assert(pattern_views(first)[k] == first[k]@);
        assert(pattern_views(second)[k] == second[k]@);
    }
}

/// The catalog of a sample that shows one tile everywhere is the one pattern that
/// shows this tile everywhere, as soon as the sample has room for a window.
pub proof fn lemma_uniform_catalog<T>(sample: GridView<T>, radius: nat, tile: T)
    requires
        sample.wf(),
        sample.width <= usize::MAX,
        sample.height <= usize::MAX,
        radius >= 1,
        2 * radius - 1 <= sample.width,
        2 * radius - 1 <= sample.height,
        forall|index: int| 0 <= index < sample.cells.len() ==> sample.cells[index] == tile,
    ensures
        catalog(sample, radius) == seq![uniform_pattern(radius, tile)],
{
    let all = catalog(sample, radius);
    let steps = sample.width * sample.height;
    let uniform = uniform_pattern(radius, tile);
    let side = (2 * radius - 1) as nat;
    assert forall|entry: int| 0 <= entry < all.len() implies all[entry] == uniform by {
        let step = lemma_catalog_prefix_sound(sample, radius, steps, entry);
        let pos = scan_position(sample.height, step);
        assert forall|index: int| 0 <= index < side * side implies window(
            sample,
            pos,
            radius,
        ).cells[index] == tile by {
            assert(side > 0);
            lemma_index_order(side, index, 0, side as int);
            let dx = index % (side as int);
            let dy = index / (side as int);
            lemma_index_of_bounds(
                sample.width,
                sample.height,
                pos.x - radius + 1 + dx,
                pos.y - radius + 1 + dy,
            );
        }
        assert(window(sample, pos, radius).cells =~= uniform.tiles.cells);
    }
    let corner = ArrayPos { x: (radius - 1) as usize, y: (radius - 1) as usize };
    lemma_scan_position(sample.width, sample.height, radius - 1, radius - 1);
    lemma_catalog_prefix_complete(
        sample,
        radius,
        steps,
        (radius - 1) * sample.height + (radius - 1),
    );
    assert(all.len() > 0);
    lemma_catalog_prefix_no_duplicates(sample, radius, steps);
    if all.len() > 1 {
        assert(all[0] == all[1]);
    }
    assert(all =~= seq![uniform]);
}

} // verus!
