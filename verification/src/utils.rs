//! A rectangular grid stored row by row, positions in it, and the window of
//! positions around a centre.

use crate::tile::{copy_of, plain_values};
use vstd::prelude::*;
use vstd::std_specs::cmp::PartialEqSpec;

verus! {

/// A position in a grid: column `x`, row `y`.
#[derive(Clone, Copy, Debug, Default, Hash, PartialEq, Eq, Structural)]
pub struct ArrayPos {
    pub x: usize,
    pub y: usize,
}

impl ArrayPos {
    pub fn new(x: usize, y: usize) -> (pos: ArrayPos)
        ensures
            pos == (ArrayPos { x, y }),
    {
        ArrayPos { x, y }
    }
}

impl std::ops::Add for ArrayPos {
    type Output = ArrayPos;

    /// The position that many columns and rows further.
    fn add(self, rhs: ArrayPos) -> (sum: ArrayPos) {
        ArrayPos { x: self.x + rhs.x, y: self.y + rhs.y }
    }
}

impl vstd::std_specs::ops::AddSpecImpl for ArrayPos {
    open spec fn obeys_add_spec() -> bool {
        true
    }

    open spec fn add_req(self, rhs: ArrayPos) -> bool {
        self.x + rhs.x <= usize::MAX && self.y + rhs.y <= usize::MAX
    }

    open spec fn add_spec(self, rhs: ArrayPos) -> ArrayPos {
        ArrayPos { x: (self.x + rhs.x) as usize, y: (self.y + rhs.y) as usize }
    }
}

/// The mathematical content of a grid: its size and its cells, row by row.
pub struct GridView<T> {
    pub width: nat,
    pub height: nat,
    pub cells: Seq<T>,
}

impl<T> GridView<T> {
    /// There is exactly one cell for each position.
    pub open spec fn wf(self) -> bool {
        self.cells.len() == self.width * self.height
    }

    /// Column `x`, row `y` is a position of the grid.
    pub open spec fn contains(self, x: int, y: int) -> bool {
        0 <= x < self.width && 0 <= y < self.height
    }

    /// Where the cell of column `x` and row `y` stands in `cells`.
    pub open spec fn index_of(self, x: int, y: int) -> int {
        y * self.width + x
    }

    /// The cell at column `x`, row `y`.
    pub open spec fn at(self, x: int, y: int) -> T {
        self.cells[self.index_of(x, y)]
    }
}

/// A position inside a `width` by `height` grid has an index below `width * height`,
/// from which its column and row can be read back.
pub proof fn lemma_index_of_bounds(width: nat, height: nat, x: int, y: int)
    requires
        0 <= x < width,
        0 <= y < height,
    ensures
        0 <= y * width <= y * width + x < width * height,
        (y * width + x) / (width as int) == y,
        (y * width + x) % (width as int) == x,
{
    assert(y * width + x < width * height) by (nonlinear_arith)
        requires
            0 <= x < width,
            0 <= y < height,
    ;
    assert(0 <= y * width) by (nonlinear_arith)
        requires
            0 <= y,
    ;
    vstd::arithmetic::div_mod::lemma_fundamental_div_mod_converse(
        y * width + x,
        width as int,
        y,
        x,
    );
}

/// An index is at or after the start of a row's column exactly if its own row comes
/// later, or is the same row with a column at or after that one.
pub proof fn lemma_index_order(width: nat, index: int, x: int, y: int)
    requires
        width > 0,
        0 <= index,
        0 <= x <= width,
        0 <= y,
    ensures
        0 <= index % (width as int) < width,
        0 <= index / (width as int),
        index == (index / (width as int)) * width + index % (width as int),
        index >= y * width + x <==> (index / (width as int) > y || (index / (width as int) == y
            && index % (width as int) >= x)),
{
    let w = width as int;
    let q = index / w;
    let m = index % w;
    vstd::arithmetic::div_mod::lemma_fundamental_div_mod(index, w);
    vstd::arithmetic::div_mod::lemma_mod_pos_bound(index, w);
    vstd::arithmetic::div_mod::lemma_div_pos_is_pos(index, w);
    assert(index == q * w + m) by (nonlinear_arith)
        requires
            index == w * q + m,
    ;
    if q > y {
        assert(q * w >= y * w + w) by (nonlinear_arith)
            requires
                q >= y + 1,
                w > 0,
        ;
    } else if q < y {
        assert(q * w + w <= y * w) by (nonlinear_arith)
            requires
                q + 1 <= y,
                w > 0,
        ;
    }
}

/// The position whose cell stands at `index` in a grid of `width` columns.
pub open spec fn position_at(width: nat, index: int) -> ArrayPos {
    ArrayPos { x: (index % (width as int)) as usize, y: (index / (width as int)) as usize }
}

/// The position of an index of a grid lies in the grid and has that index.
pub proof fn lemma_position_at_index(width: nat, height: nat, index: int)
    requires
        0 <= index < width * height,
        width <= usize::MAX,
        height <= usize::MAX,
    ensures
        position_at(width, index).x < width,
        position_at(width, index).y < height,
        position_at(width, index).y * width + position_at(width, index).x == index,
{
    assert(width > 0) by (nonlinear_arith)
        requires
            0 <= index < width * height,
    ;
    assert(height * width == width * height) by (nonlinear_arith);
    lemma_index_order(width, index, 0, height as int);
}

/// A grid of `width` columns and `height` rows.
#[derive(Debug, Hash, PartialEq, Eq)]
pub struct Array2D<T> {
    width: usize,
    height: usize,
    data: Vec<T>,
}

impl<T> View for Array2D<T> {
    type V = GridView<T>;

    closed spec fn view(&self) -> GridView<T> {
        GridView { width: self.width as nat, height: self.height as nat, cells: self.data@ }
    }
}

impl<T> Array2D<T> {
    /// The grid holds one cell for each position.
    pub open spec fn wf(&self) -> bool {
        self@.wf()
    }

    /// A grid has no more cells than a `usize` counts.
    pub proof fn lemma_len(&self)
        requires
            self.wf(),
        ensures
            self@.width * self@.height == self@.cells.len(),
            self@.cells.len() <= usize::MAX,
    {
        assert(self.data.len() == self@.cells.len());
    }

    /// Makes a grid from its cells, given row by row.
    pub fn new(width: usize, height: usize, data: Vec<T>) -> (grid: Array2D<T>)
        requires
            width * height == data.len(),
        ensures
            grid.wf(),
            grid@ == (GridView { width: width as nat, height: height as nat, cells: data@ }),
    {
        Array2D { width, height, data }
    }

    /// The cell at column `x`, row `y`.
    pub fn at(&self, x: usize, y: usize) -> (cell: &T)
        requires
            self.wf(),
            self@.contains(x as int, y as int),
        ensures
            *cell == self@.at(x as int, y as int),
    {
        proof {
            lemma_index_of_bounds(self@.width, self@.height, x as int, y as int);
            assert(self.data.len() == self@.cells.len());
        }
        &self.data[y * self.width + x]
    }

    /// The cell at column `x`, row `y`, to be changed; no other cell changes.
    pub fn at_mut(&mut self, x: usize, y: usize) -> (cell: &mut T)
        requires
            old(self).wf(),
            old(self)@.contains(x as int, y as int),
        ensures
            *cell == old(self)@.at(x as int, y as int),
            final(self)@ == (GridView {
                cells: old(self)@.cells.update(old(self)@.index_of(x as int, y as int), *final(cell)),
                ..old(self)@
            }),
    {
        proof {
            lemma_index_of_bounds(self@.width, self@.height, x as int, y as int);
            assert(self.data.len() == self@.cells.len());
        }
        &mut self.data[y * self.width + x]
    }

    /// The walk over the neighbors of `pos`: the positions of this grid that are fewer
    /// than `radius` columns and rows away from `pos`, row by row, without `pos` itself.
    pub fn get_neighbors(&self, pos: ArrayPos, radius: usize) -> (iter: NeighborPositionIterator)
        ensures
            iter.wf(),
            iter@ == neighbors(self@.width, self@.height, pos, radius as nat),
    {
        NeighborPositionIterator::new(radius, self.width, self.height, pos)
    }

    /// The walk over all cells, row by row.
    pub fn into_iter(&self) -> (iter: Array2DIter<'_, T>)
        requires
            self.wf(),
        ensures
            iter.wf(),
            iter.grid() == self@,
            iter.index() == 0,
    {
        let y = if self.width == 0 {
            self.height
        } else {
            0
        };
        proof {
            assert(y * self.width == 0) by (nonlinear_arith)
                requires
                    y == 0 || self.width == 0,
            ;
        }
        Array2DIter { x: 0, y, array: self }
    }

    pub fn width(&self) -> (width: usize)
        ensures
            width == self@.width,
    {
        self.width
    }

    pub fn height(&self) -> (height: usize)
        ensures
            height == self@.height,
    {
        self.height
    }
}

impl<T: Clone + PartialEq> Array2D<T> {
    /// Whether two grids have the same size and the same cells.
    pub fn equals(&self, other: &Array2D<T>) -> (same: bool)
        requires
            self.wf(),
            other.wf(),
            plain_values::<T>(),
        ensures
            same == (self@ == other@),
    {
        if self.width != other.width || self.height != other.height {
            return false;
        }
        let count = self.data.len();
        assert(count == self@.cells.len() && count == other@.cells.len());
        let mut index: usize = 0;
        while index < count
            invariant
                index <= count,
                count == self.data@.len(),
                count == other.data@.len(),
                plain_values::<T>(),
                forall|k: int| 0 <= k < index ==> self.data@[k] == other.data@[k],
            decreases count - index,
        {
            if !(self.data[index] == other.data[index]) {
                return false;
            }
            index = index + 1;
        }
        assert(self@.cells =~= other@.cells);
        true
    }
}

/// `copy` has the size of `grid`, and each of its cells is a clone of the cell of `grid`
/// at its place.
pub open spec fn cloned_grid<T: Clone>(grid: GridView<T>, copy: GridView<T>) -> bool {
    &&& copy.width == grid.width
    &&& copy.height == grid.height
    &&& copy.cells.len() == grid.cells.len()
    &&& forall|index: int|
        0 <= index < grid.cells.len() ==> cloned(grid.cells[index], #[trigger] copy.cells[index])
}

impl<T: Clone> Clone for Array2D<T> {
    fn clone(&self) -> (copy: Self)
        ensures
            cloned_grid(self@, copy@),
    {
        let count = self.data.len();
        let mut data: Vec<T> = Vec::with_capacity(count);
        let mut index: usize = 0;
        while index < count
            invariant
                index <= count,
                count == self.data@.len(),
                data@.len() == index,
                forall|k: int| 0 <= k < index ==> cloned(self.data@[k], #[trigger] data@[k]),
            decreases count - index,
        {
            data.push(self.data[index].clone());
            index = index + 1;
        }
        Array2D { width: self.width, height: self.height, data }
    }
}

impl<T: Default + Clone> Array2D<T> {
    /// A grid in which every cell holds a clone of the default value of `T`.
    pub fn new_default(width: usize, height: usize) -> (grid: Self)
        requires
            width * height <= usize::MAX,
        ensures
            grid.wf(),
            grid@.width == width,
            grid@.height == height,
            exists|value: T|
                call_ensures(T::default, (), value) && forall|index: int|
                    0 <= index < grid@.cells.len() ==> cloned(value, #[trigger] grid@.cells[index]),
    {
        let count = width * height;
        let value = T::default();
        let mut data: Vec<T> = Vec::with_capacity(count);
        let mut index: usize = 0;
        while index < count
            invariant
                index <= count,
                data@.len() == index,
                forall|k: int| 0 <= k < index ==> cloned(value, #[trigger] data@[k]),
            decreases count - index,
        {
            data.push(value.clone());
            index = index + 1;
        }
        let grid = Array2D { width, height, data };
        assert(call_ensures(T::default, (), value) && forall|index: int|
            0 <= index < grid@.cells.len() ==> cloned(value, #[trigger] grid@.cells[index]));
        grid
    }
}

impl<T: Clone + PartialEq> Array2D<Option<T>> {
    /// The grid of what the cells hold, if every cell holds something.
    pub fn filled(&self) -> (grid: Option<Array2D<T>>)
        requires
            self.wf(),
            plain_values::<T>(),
        ensures
            grid is Some <==> forall|index: int|
                0 <= index < self@.cells.len() ==> (#[trigger] self@.cells[index]) is Some,
            grid matches Some(filled) ==> {
                &&& filled.wf()
                &&& filled@.width == self@.width
                &&& filled@.height == self@.height
                &&& forall|index: int|
                    0 <= index < self@.cells.len() ==> self@.cells[index] == Some(
                        #[trigger] filled@.cells[index],
                    )
            },
    {
        let count = self.data.len();
        let mut data: Vec<T> = Vec::with_capacity(count);
        let mut index: usize = 0;
        while index < count
            invariant
                index <= count,
                count == self.data@.len(),
                data@.len() == index,
                plain_values::<T>(),
                forall|k: int| 0 <= k < index ==> self.data@[k] == Some(#[trigger] data@[k]),
            decreases count - index,
        {
            match &self.data[index] {
                Some(value) => {
                    data.push(copy_of(value));
                },
                None => {
                    assert(self@.cells[index as int] is None);
                    return None;
                },
            }
            index = index + 1;
        }
        assert forall|k: int| 0 <= k < self@.cells.len() implies (#[trigger] self@.cells[k]) is Some by {
            assert(self.data@[k] == Some(data@[k]));
        }
        Some(Array2D { width: self.width, height: self.height, data })
    }
}

/// Walks the cells of a grid row by row, each with its position.
pub struct Array2DIter<'a, T> {
    x: usize,
    y: usize,
    array: &'a Array2D<T>,
}

impl<'a, T> Array2DIter<'a, T> {
    /// The cursor stands on a cell, or at the start of the row after the last.
    pub closed spec fn wf(&self) -> bool {
        &&& self.array.wf()
        &&& self.y <= self.array.height
        &&& self.y < self.array.height ==> self.x < self.array.width
        &&& self.y == self.array.height ==> self.x == 0
    }

    /// The content of the grid that is walked.
    pub closed spec fn grid(&self) -> GridView<T> {
        self.array@
    }

    /// The index of the next cell; the number of cells when none is left.
    pub closed spec fn index(&self) -> int {
        self.y * self.array.width + self.x
    }
}

impl<'a, T: Clone> Array2DIter<'a, T> {
    /// The next position with a clone of its cell, if a cell is left.
    pub fn next(&mut self) -> (item: Option<(ArrayPos, T)>)
        requires
            old(self).wf(),
        ensures
            final(self).wf(),
            final(self).grid() == old(self).grid(),
            0 <= old(self).index() <= old(self).grid().cells.len(),
            match item {
                Some((pos, cell)) => {
                    &&& old(self).index() < old(self).grid().cells.len()
                    &&& pos == position_at(old(self).grid().width, old(self).index())
                    &&& cloned(old(self).grid().cells[old(self).index()], cell)
                    &&& final(self).index() == old(self).index() + 1
                },
                None => {
                    &&& old(self).index() == old(self).grid().cells.len()
                    &&& final(self).index() == old(self).index()
                },
            },
    {
        proof {
            self.array.lemma_len();
            assert(self.array.height * self.array.width == self.array.width * self.array.height)
                by (nonlinear_arith);
        }
        if self.y >= self.array.height {
            return None;
        }
        proof {
            lemma_index_of_bounds(
                self.array@.width,
                self.array@.height,
                self.x as int,
                self.y as int,
            );
            assert((self.y + 1) * self.array.width == self.y * self.array.width
                + self.array.width) by (nonlinear_arith);
        }
        let pos = ArrayPos::new(self.x, self.y);
        let cell = self.array.at(self.x, self.y).clone();
        if self.x + 1 < self.array.width {
            self.x = self.x + 1;
        } else {
            self.x = 0;
            self.y = self.y + 1;
            if self.y < self.array.height {
                assert(self.array.width > 0);
            }
        }
        Some((pos, cell))
    }
}

/// All positions of a grid, row by row, each row from left to right.
pub open spec fn positions(width: nat, height: nat) -> Seq<ArrayPos> {
    Seq::new(width * height, |index: int| position_at(width, index))
}

/// `pos` is fewer than `radius` columns and fewer than `radius` rows away from `center`:
/// it lies in the square of side `2 * radius - 1` around `center`.
pub open spec fn in_window(center: ArrayPos, radius: nat, pos: ArrayPos) -> bool {
    &&& center.x - radius < pos.x < center.x + radius
    &&& center.y - radius < pos.y < center.y + radius
}

/// `pos` lies in the window around `center` and is not `center` itself.
pub open spec fn is_neighbor(center: ArrayPos, radius: nat, pos: ArrayPos) -> bool {
    pos != center && in_window(center, radius, pos)
}

/// The positions of a `width` by `height` grid that are neighbors of `center`, row by row.
pub open spec fn neighbors(width: nat, height: nat, center: ArrayPos, radius: nat) -> Seq<
    ArrayPos,
> {
    positions(width, height).filter(|pos: ArrayPos| is_neighbor(center, radius, pos))
}

/// The neighbors of `center` among the positions from `from` on.
pub open spec fn neighbors_from(
    width: nat,
    height: nat,
    center: ArrayPos,
    radius: nat,
    from: int,
) -> Seq<ArrayPos> {
    positions(width, height).subrange(from, (width * height) as int).filter(
        |pos: ArrayPos| is_neighbor(center, radius, pos),
    )
}

/// Filtering takes the first element if it passes, and then filters the rest.
pub proof fn lemma_filter_first<A>(s: Seq<A>, pred: spec_fn(A) -> bool)
    requires
        s.len() > 0,
    ensures
        s.filter(pred) == if pred(s[0]) {
            seq![s[0]] + s.drop_first().filter(pred)
        } else {
            s.drop_first().filter(pred)
        },
{
    let head = seq![s[0]];
    assert(s =~= head + s.drop_first());
    Seq::filter_distributes_over_add(head, s.drop_first(), pred);
    assert(head.filter(pred) =~= if pred(s[0]) {
        head
    } else {
        Seq::empty()
    }) by {
        reveal_with_fuel(Seq::filter, 2);
        assert(head.drop_last() =~= Seq::empty());
    }
    assert(Seq::<A>::empty() + s.drop_first().filter(pred) =~= s.drop_first().filter(pred));
}

/// Filtering a list in which nothing stands twice gives such a list.
pub proof fn lemma_filter_no_duplicates<A>(s: Seq<A>, pred: spec_fn(A) -> bool)
    requires
        s.no_duplicates(),
    ensures
        s.filter(pred).no_duplicates(),
    decreases s.len(),
{
    reveal(Seq::filter);
    if s.len() > 0 {
        let front = s.drop_last();
        lemma_filter_no_duplicates(front, pred);
        if pred(s.last()) {
            if front.filter(pred).contains(s.last()) {
                front.lemma_filter_contains_rev(pred, s.last());
                let place = choose|place: int| 0 <= place < front.len() && front[place] == s.last();
                assert(s[place] == s[s.len() - 1]);
            }
        }
    }
}

/// The first position from `from` on is taken if it is a neighbor; the rest follows.
pub proof fn lemma_neighbors_from_step(
    width: nat,
    height: nat,
    center: ArrayPos,
    radius: nat,
    from: int,
)
    requires
        0 <= from < width * height,
    ensures
        neighbors_from(width, height, center, radius, from) == if is_neighbor(
            center,
            radius,
            position_at(width, from),
        ) {
            seq![position_at(width, from)] + neighbors_from(width, height, center, radius, from + 1)
        } else {
            neighbors_from(width, height, center, radius, from + 1)
        },
{
    let all = positions(width, height);
    let n = (width * height) as int;
    let rest = all.subrange(from, n);
    let pred = |pos: ArrayPos| is_neighbor(center, radius, pos);
    lemma_filter_first(rest, pred);
    assert(rest.drop_first() =~= all.subrange(from + 1, n));
}

/// Positions that are no neighbors can be left out.
pub proof fn lemma_neighbors_from_skip(
    width: nat,
    height: nat,
    center: ArrayPos,
    radius: nat,
    from: int,
    to: int,
)
    requires
        0 <= from <= to <= width * height,
        forall|index: int|
            from <= index < to ==> !is_neighbor(center, radius, #[trigger] position_at(width, index)),
    ensures
        neighbors_from(width, height, center, radius, from) == neighbors_from(
            width,
            height,
            center,
            radius,
            to,
        ),
    decreases to - from,
{
    if from < to {
        lemma_neighbors_from_step(width, height, center, radius, from);
        lemma_neighbors_from_skip(width, height, center, radius, from + 1, to);
    }
}

/// From the end of the grid on there is no position left.
pub proof fn lemma_neighbors_from_end(width: nat, height: nat, center: ArrayPos, radius: nat)
    ensures
        neighbors_from(width, height, center, radius, (width * height) as int) == Seq::<
            ArrayPos,
        >::empty(),
        neighbors_from(width, height, center, radius, 0) == neighbors(width, height, center, radius),
{
    let all = positions(width, height);
    let n = (width * height) as int;
    let pred = |pos: ArrayPos| is_neighbor(center, radius, pos);
    assert(all.subrange(n, n) =~= Seq::empty());
    assert(Seq::<ArrayPos>::empty().filter(pred) =~= Seq::empty()) by {
        reveal_with_fuel(Seq::filter, 1);
    }
    assert(all.subrange(0, n) =~= all);
}

/// A position is among the neighbors of `center` exactly if it lies in the grid, lies in
/// the window around `center`, and is not `center`.
pub proof fn lemma_neighbors_contains(
    width: nat,
    height: nat,
    center: ArrayPos,
    radius: nat,
    pos: ArrayPos,
)
    requires
        width <= usize::MAX,
        height <= usize::MAX,
    ensures
        neighbors(width, height, center, radius).contains(pos) <==> pos.x < width && pos.y < height
            && is_neighbor(center, radius, pos),
{
    let all = positions(width, height);
    let pred = |p: ArrayPos| is_neighbor(center, radius, p);
    if pos.x < width && pos.y < height && is_neighbor(center, radius, pos) {
        lemma_index_of_bounds(width, height, pos.x as int, pos.y as int);
        let index = pos.y * width + pos.x;
        assert(all[index] == pos);
        all.lemma_filter_contains(pred, index);
    }
    if all.filter(pred).contains(pos) {
        all.lemma_filter_contains_rev(pred, pos);
        let index = choose|index: int| 0 <= index < all.len() && all[index] == pos;
        assert(width > 0) by (nonlinear_arith)
            requires
                0 <= index < width * height,
        ;
        lemma_index_order(width, index, 0, height as int);
        assert(height * width == width * height) by (nonlinear_arith);
        let place = choose|place: int|
            0 <= place < all.filter(pred).len() && all.filter(pred)[place] == pos;
        all.lemma_filter_pred(pred, place);
    }
}

/// No position comes twice among the neighbors of a position.
pub proof fn lemma_neighbors_no_duplicates(width: nat, height: nat, center: ArrayPos, radius: nat)
    requires
        width <= usize::MAX,
        height <= usize::MAX,
    ensures
        neighbors(width, height, center, radius).no_duplicates(),
{
    let all = positions(width, height);
    assert forall|i: int, j: int| 0 <= i < all.len() && 0 <= j < all.len() && i != j implies all[i]
        != all[j] by {
        assert(width > 0) by (nonlinear_arith)
            requires
                0 <= i < width * height,
        ;
        assert(height * width == width * height) by (nonlinear_arith);
        lemma_index_order(width, i, 0, height as int);
        lemma_index_order(width, j, 0, height as int);
    }
    lemma_filter_no_duplicates(all, |pos: ArrayPos| is_neighbor(center, radius, pos));
}

/// Walks the neighbors of a position in a grid of a given size, row by row.
#[derive(Clone, Copy, Debug)]
pub struct NeighborPositionIterator {
    x: usize,
    y: usize,
    x_lo: usize,
    x_hi: usize,
    y_hi: usize,
    radius: usize,
    array_width: usize,
    array_height: usize,
    start_pos: ArrayPos,
}

impl View for NeighborPositionIterator {
    type V = Seq<ArrayPos>;

    /// The positions still to come, in the order in which they come.
    closed spec fn view(&self) -> Seq<ArrayPos> {
        if self.y < self.y_hi {
            neighbors_from(
                self.array_width as nat,
                self.array_height as nat,
                self.start_pos,
                self.radius as nat,
                self.y * self.array_width + self.x,
            )
        } else {
            Seq::empty()
        }
    }
}

impl NeighborPositionIterator {
    /// The cursor stands on a cell of the window that lies in the grid, or past the last row.
    pub closed spec fn wf(&self) -> bool {
        &&& self.x_hi <= self.array_width
        &&& self.y_hi <= self.array_height
        &&& self.y < self.y_hi ==> {
            &&& self.radius >= 1
            &&& self.x_lo <= self.x < self.x_hi
            &&& self.first_row() <= self.y
            &&& self.x_lo == self.first_column()
            &&& self.x_hi == self.end_column()
            &&& self.y_hi == self.end_row()
        }
    }

    /// The first column of the window that lies in the grid.
    spec fn first_column(&self) -> int {
        if self.start_pos.x >= self.radius {
            self.start_pos.x - self.radius + 1
        } else {
            0
        }
    }

    /// The first row of the window that lies in the grid.
    spec fn first_row(&self) -> int {
        if self.start_pos.y >= self.radius {
            self.start_pos.y - self.radius + 1
        } else {
            0
        }
    }

    /// The column after the last one of the window that lies in the grid.
    spec fn end_column(&self) -> int {
        if self.start_pos.x + self.radius <= self.array_width {
            self.start_pos.x + self.radius
        } else {
            self.array_width as int
        }
    }

    /// The row after the last one of the window that lies in the grid.
    spec fn end_row(&self) -> int {
        if self.start_pos.y + self.radius <= self.array_height {
            self.start_pos.y + self.radius
        } else {
            self.array_height as int
        }
    }

    /// The index of the cell under the cursor.
    spec fn cursor(&self) -> int {
        self.y * self.array_width + self.x
    }

    /// The neighbors among the positions from `from` on.
    spec fn rest_from(&self, from: int) -> Seq<ArrayPos> {
        neighbors_from(
            self.array_width as nat,
            self.array_height as nat,
            self.start_pos,
            self.radius as nat,
            from,
        )
    }

    /// No cell of the window lies between the end of one of its rows and the start of
    /// the next: from `from`, which follows row `row` of the window or is the start of
    /// the grid, up to `to`, which is the start of the window in row `row + 1` or the end
    /// of the grid.
    proof fn lemma_gap(&self, row: int, from: int, to: int)
        requires
            self.radius >= 1,
            self.first_column() <= self.end_column(),
            -1 <= row,
            from == 0 || from == row * self.array_width + self.end_column(),
            from == 0 ==> row + 1 <= self.first_row(),
            0 <= from <= to <= self.array_width * self.array_height,
            row + 1 < self.end_row() ==> to == (row + 1) * self.array_width + self.first_column(),
            row + 1 >= self.end_row() ==> to == self.array_width * self.array_height,
        ensures
            self.rest_from(from) == self.rest_from(to),
    {
        let w = self.array_width as nat;
        let h = self.array_height as nat;
        assert forall|index: int| from <= index < to implies !is_neighbor(
            self.start_pos,
            self.radius as nat,
            #[trigger] position_at(w, index),
        ) by {
            assert(w > 0) by (nonlinear_arith)
                requires
                    0 <= index < w * h,
            ;
            if row >= 0 {
                lemma_index_order(w, index, self.end_column(), row);
            }
            lemma_index_order(w, index, self.first_column(), row + 1);
            lemma_index_order(w, index, 0, h as int);
            assert(h * w == w * h) by (nonlinear_arith);
            let column = index % (w as int);
            let line = index / (w as int);
            assert(line < h);
            assert(position_at(w, index) == ArrayPos { x: column as usize, y: line as usize });
        }
        lemma_neighbors_from_skip(w, h, self.start_pos, self.radius as nat, from, to);
    }

    /// Starts the walk around `start_pos` in a grid of `width` columns and `height` rows.
    pub fn new(radius: usize, width: usize, height: usize, start_pos: ArrayPos) -> (iter: Self)
        ensures
            iter.wf(),
            iter@ == neighbors(width as nat, height as nat, start_pos, radius as nat),
    {
        let x_lo = if start_pos.x >= radius && radius >= 1 {
            start_pos.x - radius + 1
        } else {
            0
        };
        let y_lo = if start_pos.y >= radius && radius >= 1 {
            start_pos.y - radius + 1
        } else {
            0
        };
        let x_hi = if radius <= width && start_pos.x <= width - radius {
            start_pos.x + radius
        } else {
            width
        };
        let y_hi = if radius <= height && start_pos.y <= height - radius {
            start_pos.y + radius
        } else {
            height
        };
        let empty = radius == 0 || x_lo >= x_hi || y_lo >= y_hi;
        let iter = NeighborPositionIterator {
            x: x_lo,
            y: if empty {
                y_hi
            } else {
                y_lo
            },
            x_lo,
            x_hi,
            y_hi,
            radius,
            array_width: width,
            array_height: height,
            start_pos,
        };
        proof {
            let w = width as nat;
            let h = height as nat;
            lemma_neighbors_from_end(w, h, start_pos, radius as nat);
            if empty {
                assert forall|index: int| 0 <= index < w * h implies !is_neighbor(
                    start_pos,
                    radius as nat,
                    #[trigger] position_at(w, index),
                ) by {
                    assert(w > 0) by (nonlinear_arith)
                        requires
                            0 <= index < w * h,
                    ;
                    lemma_index_order(w, index, 0, h as int);
                    assert(h * w == w * h) by (nonlinear_arith);
                }
                lemma_neighbors_from_skip(w, h, start_pos, radius as nat, 0, (w * h) as int);
            } else {
                lemma_index_of_bounds(w, h, x_lo as int, y_lo as int);
                iter.lemma_gap(y_lo - 1, 0, iter.cursor());
            }
        }
        iter
    }

    /// Whether the cursor has left the last row of the window.
    fn is_at_end(&self) -> (at_end: bool)
        ensures
            at_end == (self.y >= self.y_hi),
    {
        self.y >= self.y_hi
    }

    /// Moves the cursor to the next cell of the window that lies in the grid.
    fn increment(&mut self)
        requires
            old(self).wf(),
            old(self).y < old(self).y_hi,
        ensures
            final(self).wf(),
            final(self)@ == old(self).rest_from(old(self).cursor() + 1),
            final(self).cursor() > old(self).cursor() || final(self).y >= final(self).y_hi,
            final(self).start_pos == old(self).start_pos,
            final(self).array_width == old(self).array_width,
            final(self).array_height == old(self).array_height,
            final(self).radius == old(self).radius,
    {
        proof {
            lemma_index_of_bounds(
                self.array_width as nat,
                self.array_height as nat,
                self.x as int,
                self.y as int,
            );
            lemma_neighbors_from_end(
                self.array_width as nat,
                self.array_height as nat,
                self.start_pos,
                self.radius as nat,
            );
        }
        if self.x + 1 < self.x_hi {
            self.x = self.x + 1;
        } else {
            proof {
                if self.y + 1 < self.y_hi {
                    lemma_index_of_bounds(
                        self.array_width as nat,
                        self.array_height as nat,
                        self.x_lo as int,
                        self.y + 1,
                    );
                }
                assert((self.y + 1) * self.array_width == self.y * self.array_width
                    + self.array_width) by (nonlinear_arith);
                assert((self.y + 1) * self.array_width <= self.array_width * self.array_height)
                    by (nonlinear_arith)
                    requires
                        self.y + 1 <= self.array_height,
                ;
                self.lemma_gap(
                    self.y as int,
                    self.cursor() + 1,
                    if self.y + 1 < self.y_hi {
                        (self.y + 1) * self.array_width + self.x_lo
                    } else {
                        self.array_width * self.array_height
                    },
                );
            }
            self.x = self.x_lo;
            self.y = self.y + 1;
        }
    }

    /// The next neighbor, if one is left.
    pub fn next(&mut self) -> (pos: Option<ArrayPos>)
        requires
            old(self).wf(),
        ensures
            final(self).wf(),
            old(self)@.len() == 0 ==> pos.is_none() && final(self)@ == old(self)@,
            old(self)@.len() > 0 ==> pos == Some(old(self)@[0]) && final(self)@ == old(
                self,
            )@.drop_first(),
    {
        if self.is_at_end() {
            return None;
        }
        proof {
            lemma_index_of_bounds(
                self.array_width as nat,
                self.array_height as nat,
                self.x as int,
                self.y as int,
            );
            lemma_neighbors_from_step(
                self.array_width as nat,
                self.array_height as nat,
                self.start_pos,
                self.radius as nat,
                self.cursor(),
            );
        }
        if self.x == self.start_pos.x && self.y == self.start_pos.y {
            self.increment();
            if self.is_at_end() {
                return None;
            }
            proof {
                lemma_index_of_bounds(
                    self.array_width as nat,
                    self.array_height as nat,
                    self.x as int,
                    self.y as int,
                );
                lemma_neighbors_from_step(
                    self.array_width as nat,
                    self.array_height as nat,
                    self.start_pos,
                    self.radius as nat,
                    self.cursor(),
                );
            }
        }
        let pos = ArrayPos::new(self.x, self.y);
        let ghost rest = self.rest_from(self.cursor() + 1);
        assert(self@ =~= seq![pos] + rest);
        self.increment();
        assert(rest =~= (seq![pos] + rest).drop_first());
        Some(pos)
    }
}

} // verus!
