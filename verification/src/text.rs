//! Texts: what a value looks like when it is displayed, and how texts are put together.

use crate::pattern::Pattern;
use crate::tile_map::{TileData, TileIndex};
use crate::utils::{Array2D, ArrayPos, GridView};
use itertools::Itertools;
use std::collections::HashMap;
use std::fmt::Display;
use std::hash::Hash;
use vstd::prelude::*;
use vstd::std_specs::hash::obeys_key_model;
use vstd::string::{to_string_from_display_ensures, StringExecFns};
use vstd::utf8::encode_utf8;

verus! {

/// `text` is what `value` looks like when it is displayed.
pub open spec fn shows<T: Display>(value: T, text: Seq<char>) -> bool {
    exists|displayed: String| displayed@ == text && to_string_from_display_ensures(&value, displayed)
}

/// The text that `value` displays as.
pub fn display_text<T: Display>(value: &T) -> (text: String)
    ensures
        shows(*value, text@),
{
    value.to_string()
}

/// `count` spaces.
pub open spec fn blanks(count: nat) -> Seq<char> {
    Seq::new(count, |index: int| ' ')
}

/// A text of `count` spaces.
pub fn spaces(count: usize) -> (text: String)
    ensures
        text@ == blanks(count as nat),
{
    let mut text = String::new();
    let mut made: usize = 0;
    assert(text@ =~= blanks(0));
    while made < count
        invariant
            made <= count,
            text@ == blanks(made as nat),
        decreases count - made,
    {
        proof {
            reveal_strlit(" ");
        }
        text.append(" ");
        made = made + 1;
        assert(text@ =~= blanks(made as nat));
    }
    text
}

impl ArrayPos {
    /// `text` shows a position: column and row in brackets, with a comma between.
    pub open spec fn is_text(self, text: Seq<char>) -> bool {
        exists|x: Seq<char>, y: Seq<char>|
            shows(self.x, x) && shows(self.y, y) && text == "("@ + x + ", "@ + y + ")"@
    }

    /// The position as a text, `(x, y)`.
    pub fn to_text(&self) -> (text: String)
        ensures
            self.is_text(text@),
    {
        let x = display_text(&self.x);
        let y = display_text(&self.y);
        let mut text = String::from_str("(");
        text.append(x.as_str());
        text.append(", ");
        text.append(y.as_str());
        text.append(")");
        assert(shows(self.x, x@) && shows(self.y, y@) && text@ == "("@ + x@ + ", "@ + y@ + ")"@);
        text
    }
}

/// The texts of `parts` one after the other, with `separator` between each two.
pub open spec fn joined_text(parts: Seq<Seq<char>>, separator: Seq<char>) -> Seq<char>
    decreases parts.len(),
{
    if parts.len() == 0 {
        Seq::empty()
    } else if parts.len() == 1 {
        parts[0]
    } else {
        joined_text(parts.drop_last(), separator) + separator + parts.last()
    }
}

/// Joining one more part adds the separator, unless it is the first part, and the part.
pub proof fn lemma_joined_text_push(parts: Seq<Seq<char>>, separator: Seq<char>, part: Seq<char>)
    ensures
        joined_text(parts.push(part), separator) == if parts.len() == 0 {
            part
        } else {
            joined_text(parts, separator) + separator + part
        },
{
    assert(parts.push(part).drop_last() =~= parts);
}

/// The contents of a list of texts.
pub open spec fn text_views(texts: Seq<String>) -> Seq<Seq<char>> {
    texts.map_values(|text: String| text@)
}

/// Calls `Itertools::join` on the texts of a list. Believed: the result is the texts one
/// after the other, with the separator between each two.
#[verifier::external_body]
pub(crate) fn join_texts(parts: &Vec<String>, separator: &str) -> (text: String)
    ensures
        text@ == joined_text(text_views(parts@), separator@),
{
    parts.iter().join(separator)
}

/// The text of rows of cells: each row on a line of its own, after a tab, in square
/// brackets, its cells with a comma and a space between.
pub open spec fn rows_text(rows: Seq<Seq<Seq<char>>>) -> Seq<char>
    decreases rows.len(),
{
    if rows.len() == 0 {
        Seq::empty()
    } else {
        rows_text(rows.drop_last()) + "\t["@ + joined_text(rows.last(), ", "@) + "]\n"@
    }
}

/// `rows` holds, row by row, a text that shows each cell of `grid`.
pub open spec fn show_cells<T: Display>(grid: GridView<T>, rows: Seq<Seq<Seq<char>>>) -> bool {
    &&& rows.len() == grid.height
    &&& forall|y: int| 0 <= y < rows.len() ==> (#[trigger] rows[y]).len() == grid.width
    &&& forall|x: int, y: int|
        0 <= x < grid.width && 0 <= y < grid.height ==> shows(grid.at(x, y), #[trigger] rows[y][x])
}

impl<T: Display> Array2D<T> {
    /// `text` shows a grid: its rows between a line with an opening square bracket and a
    /// line with a closing one.
    pub open spec fn is_text(&self, text: Seq<char>) -> bool {
        exists|rows: Seq<Seq<Seq<char>>>|
            show_cells(self@, rows) && text == "[\n"@ + rows_text(rows) + "]\n"@
    }

    /// The grid as a text, row by row.
    pub fn to_text(&self) -> (text: String)
        requires
            self.wf(),
        ensures
            self.is_text(text@),
    {
        let width = self.width();
        let height = self.height();
        let mut text = String::from_str("[\n");
        let ghost mut rows: Seq<Seq<Seq<char>>> = Seq::empty();
        let mut y: usize = 0;
        assert(text@ =~= "[\n"@ + rows_text(rows));
        while y < height
            invariant
                self.wf(),
                width == self@.width,
                height == self@.height,
                y <= height,
                rows.len() == y,
                forall|line: int| 0 <= line < rows.len() ==> (#[trigger] rows[line]).len() == width,
                forall|x: int, line: int|
                    0 <= x < width && 0 <= line < y ==> shows(
                        self@.at(x, line),
                        #[trigger] rows[line][x],
                    ),
                text@ == "[\n"@ + rows_text(rows),
            decreases height - y,
        {
            text.append("\t[");
            let ghost mut row: Seq<Seq<char>> = Seq::empty();
            let ghost start = text@;
            let mut x: usize = 0;
            assert(text@ =~= start + joined_text(row, ", "@));
            while x < width
                invariant
                    self.wf(),
                    width == self@.width,
                    height == self@.height,
                    y < height,
                    x <= width,
                    row.len() == x,
                    forall|column: int|
                        0 <= column < x ==> shows(self@.at(column, y as int), #[trigger] row[column]),
                    text@ == start + joined_text(row, ", "@),
                decreases width - x,
            {
                if x != 0 {
                    text.append(", ");
                }
                let cell = display_text(self.at(x, y));
                text.append(cell.as_str());
                proof {
                    lemma_joined_text_push(row, ", "@, cell@);
                    row = row.push(cell@);
                    assert(text@ =~= start + joined_text(row, ", "@));
                }
                x = x + 1;
            }
            text.append("]\n");
            proof {
                let longer = rows.push(row);
                assert(longer.drop_last() =~= rows);
                assert(text@ =~= "[\n"@ + rows_text(longer));
                rows = longer;
            }
            y = y + 1;
        }
        text.append("]\n");
        assert(show_cells(self@, rows) && text@ == "[\n"@ + rows_text(rows) + "]\n"@);
        text
    }
}

impl<T: Display> Pattern<T> {
    /// The tiles of the pattern as a text, row by row.
    pub fn to_text(&self) -> (text: String)
        requires
            self.wf(),
        ensures
            exists|rows: Seq<Seq<Seq<char>>>|
                show_cells(self@.tiles, rows) && text@ == "[\n"@ + rows_text(rows) + "]\n"@,
    {
        self.data().to_text()
    }
}

impl TileIndex {
    /// `text` shows a place in a picture: column and row in brackets, with a comma
    /// between.
    pub open spec fn is_text(self, text: Seq<char>) -> bool {
        exists|x: Seq<char>, y: Seq<char>|
            shows(self.x, x) && shows(self.y, y) && text == "("@ + x + ", "@ + y + ")"@
    }

    /// The place as a text, `(x, y)`.
    pub fn to_text(&self) -> (text: String)
        ensures
            self.is_text(text@),
    {
        let x = display_text(&self.x);
        let y = display_text(&self.y);
        let mut text = String::from_str("(");
        text.append(x.as_str());
        text.append(", ");
        text.append(y.as_str());
        text.append(")");
        assert(shows(self.x, x@) && shows(self.y, y@) && text@ == "("@ + x@ + ", "@ + y@ + ")"@);
        text
    }
}

impl TileData {
    /// `text` shows a kind of tile: the places of its pictures, with a semicolon and a
    /// space between, in square brackets.
    pub open spec fn is_text(&self, text: Seq<char>) -> bool {
        exists|places: Seq<Seq<char>>|
            {
                &&& places.len() == self.textures@.len()
                &&& forall|k: int|
                    0 <= k < places.len() ==> self.textures@[k].is_text(#[trigger] places[k])
                &&& text == "["@ + joined_text(places, "; "@) + "]"@
            }
    }

    /// The kind of tile as a text: the places of its pictures.
    pub fn to_text(&self) -> (text: String)
        ensures
            self.is_text(text@),
    {
        let mut places: Vec<String> = Vec::with_capacity(self.textures.len());
        let mut next: usize = 0;
        while next < self.textures.len()
            invariant
                next <= self.textures@.len(),
                places@.len() == next,
                forall|k: int|
                    0 <= k < next ==> self.textures@[k].is_text((#[trigger] places@[k])@),
            decreases self.textures@.len() - next,
        {
            let place = self.textures[next].to_text();
            places.push(place);
            next = next + 1;
        }
        let mut text = String::from_str("[");
        text.append(join_texts(&places, "; ").as_str());
        text.append("]");
        proof {
            let shown = text_views(places@);
            assert(shown.len() == self.textures@.len());
            assert forall|k: int| 0 <= k < shown.len() implies self.textures@[k].is_text(
                #[trigger] shown[k],
            ) by {
                assert(shown[k] == places@[k]@);
            }
            assert(text@ == "["@ + joined_text(shown, "; "@) + "]"@);
        }
        text
    }
}

/// A list of values that is displayed one value to a line.
pub struct SliceDisplay<'a, T: 'a>(pub &'a [T]);

impl<'a, T: Display + 'a> SliceDisplay<'a, T> {
    /// `text` shows the list: its values with a comma and a line break between.
    pub open spec fn is_text(&self, text: Seq<char>) -> bool {
        exists|items: Seq<Seq<char>>|
            {
                &&& items.len() == self.0@.len()
                &&& forall|k: int| 0 <= k < items.len() ==> shows(self.0@[k], #[trigger] items[k])
                &&& text == joined_text(items, ",\n"@)
            }
    }

    /// The list as a text, one value to a line.
    pub fn to_text(&self) -> (text: String)
        ensures
            self.is_text(text@),
    {
        let mut text = String::new();
        let ghost mut items: Seq<Seq<char>> = Seq::empty();
        let mut first = true;
        let mut next: usize = 0;
        assert(text@ =~= joined_text(items, ",\n"@));
        while next < self.0.len()
            invariant
                next <= self.0@.len(),
                items.len() == next,
                first == (next == 0),
                forall|k: int| 0 <= k < next ==> shows(self.0@[k], #[trigger] items[k]),
                text@ == joined_text(items, ",\n"@),
            decreases self.0@.len() - next,
        {
            let item = display_text(&self.0[next]);
            if !first {
                text.append(",\n");
            }
            text.append(item.as_str());
            first = false;
            proof {
                lemma_joined_text_push(items, ",\n"@, item@);
                items = items.push(item@);
                assert(text@ =~= joined_text(items, ",\n"@));
            }
            next = next + 1;
        }
        text
    }
}

/// The number of bytes of a text, as `str::len` counts them.
pub open spec fn byte_len(text: Seq<char>) -> usize {
    encode_utf8(text).len() as usize
}

/// The label of a tile: what `labels` gives for it, or `default` where it gives nothing.
pub open spec fn label_of<T>(labels: Map<T, String>, default: Seq<char>, tile: T) -> Seq<char> {
    if labels.contains_key(tile) {
        labels[tile]@
    } else {
        default
    }
}

/// `width` is the width of the cells of a printed pattern: the number of bytes of the
/// longest label, `default` among them; one where there are no labels and `default` is
/// empty.
pub open spec fn is_cell_width<T>(labels: Map<T, String>, default: Seq<char>, width: nat) -> bool {
    &&& byte_len(default) <= width
    &&& forall|label: String| labels.values().contains(label) ==> byte_len(label@) <= width
    &&& {
        ||| width == byte_len(default)
        ||| exists|label: String| labels.values().contains(label) && byte_len(label@) == width
        ||| labels.values() =~= Set::<String>::empty() && width == 1
    }
    &&& labels.values() =~= Set::<String>::empty() ==> 1 <= width
}

/// A label in its cell: in square brackets, with spaces before and after it that fill
/// the cell to `width` bytes, the smaller half of them before it.
pub open spec fn cell_text(label: Seq<char>, width: nat) -> Seq<char> {
    let before = ((width - byte_len(label)) / 2) as nat;
    let after = (width - before - byte_len(label)) as nat;
    "["@ + blanks(before) + label + blanks(after) + "]"@
}

/// The cells of the first `columns` tiles of row `y`.
pub open spec fn row_cells_text<T>(
    tiles: GridView<T>,
    labels: Map<T, String>,
    default: Seq<char>,
    width: nat,
    y: int,
    columns: nat,
) -> Seq<char>
    decreases columns,
{
    if columns == 0 {
        Seq::empty()
    } else {
        row_cells_text(tiles, labels, default, width, y, (columns - 1) as nat) + cell_text(
            label_of(labels, default, tiles.at(columns - 1, y)),
            width,
        )
    }
}

/// The first `rows` rows of tiles, each as a line of cells.
pub open spec fn pattern_text<T>(
    tiles: GridView<T>,
    labels: Map<T, String>,
    default: Seq<char>,
    width: nat,
    rows: nat,
) -> Seq<char>
    decreases rows,
{
    if rows == 0 {
        Seq::empty()
    } else {
        pattern_text(tiles, labels, default, width, (rows - 1) as nat) + row_cells_text(
            tiles,
            labels,
            default,
            width,
            rows - 1,
            tiles.width,
        ) + "\n"@
    }
}

/// The number of bytes of the longest label; none where there is no label.
pub fn longest_label<T: Eq + Hash>(labels: &HashMap<T, String>) -> (longest: Option<usize>)
    requires
        obeys_key_model::<T>(),
    ensures
        match longest {
            Some(len) => {
                &&& forall|label: String|
                    labels@.values().contains(label) ==> byte_len(label@) <= len
                &&& exists|label: String|
                    labels@.values().contains(label) && byte_len(label@) == len
            },
            None => labels@.values() =~= Set::<String>::empty(),
        },
{
    broadcast use vstd::std_specs::hash::group_hash_axioms;

    let ghost mut seen: Seq<String> = Seq::empty();
    let mut longest: Option<usize> = None;
    for label in it: labels.values()
        invariant
            obeys_key_model::<T>(),
            it.seq().unref().to_set() == labels@.values(),
            seen.len() == it.index(),
            forall|k: int| 0 <= k < seen.len() ==> #[trigger] seen[k] == *it.seq()[k],
            match longest {
                Some(len) => {
                    &&& forall|k: int| 0 <= k < seen.len() ==> byte_len((#[trigger] seen[k])@) <= len
                    &&& exists|k: int| 0 <= k < seen.len() && byte_len((#[trigger] seen[k])@) == len
                },
                None => seen.len() == 0,
            },
            it.index() == it.seq().len() ==> seen.to_set() == labels@.values(),
    {
        let len = label.as_str().len();
        let ghost before = seen;
        let ghost earlier = longest;
        longest = match longest {
            Some(other) => if other >= len {
                Some(other)
            } else {
                Some(len)
            },
            None => Some(len),
        };
        proof {
            let all = it.seq().unref();
            let now = it.index();
            assert(all[now] == *label);
            seen = before.push(*label);
            assert(byte_len(seen[now]@) == len);
            assert forall|k: int| 0 <= k < seen.len() implies byte_len((#[trigger] seen[k])@)
                <= longest.unwrap() by {
                if k < now {
                    assert(seen[k] == before[k]);
                }
            }
            if earlier is Some && earlier.unwrap() >= len {
                let k = choose|k: int|
                    0 <= k < before.len() && byte_len((#[trigger] before[k])@) == earlier.unwrap();
                assert(seen[k] == before[k]);
            }
            assert forall|k: int| 0 <= k < seen.len() implies #[trigger] seen[k] == *it.seq()[k] by {
                if k < now {
                    assert(seen[k] == before[k]);
                }
            }
            assert(now + 1 == it.seq().len() ==> seen =~= all);
        }
    }
    proof {
        if longest is Some {
            let k = choose|k: int|
                0 <= k < seen.len() && byte_len((#[trigger] seen[k])@) == longest.unwrap();
            assert(seen.to_set().contains(seen[k]));
            assert forall|label: String| labels@.values().contains(label) implies byte_len(label@)
                <= longest.unwrap() by {
                assert(seen.to_set().contains(label));
                let k = choose|k: int| 0 <= k < seen.len() && seen[k] == label;
                assert(byte_len(seen[k]@) <= longest.unwrap());
            }
        } else {
            assert(seen.to_set() =~= Set::<String>::empty());
        }
    }
    longest
}

impl<T: Eq + Hash> Pattern<T> {
    /// The pattern as lines of cells of equal width, each tile shown by its label in
    /// `feilds`, or by `default_pattern_text` where it has none.
    pub fn pretty_print(&self, feilds: &HashMap<T, String>, default_pattern_text: String) -> (text:
        String)
        requires
            self.wf(),
            obeys_key_model::<T>(),
        ensures
            exists|width: nat|
                is_cell_width(feilds@, default_pattern_text@, width) && text@ == pattern_text(
                    self@.tiles,
                    feilds@,
                    default_pattern_text@,
                    width,
                    self@.tiles.height,
                ),
    {
        let longest = longest_label(feilds);
        let max_len = match longest {
            Some(len) => len,
            None => 1,
        };
        let default_len = default_pattern_text.as_str().len();
        let max_len = if max_len >= default_len {
            max_len
        } else {
            default_len
        };
        let tiles = self.data();
        let width = tiles.width();
        let height = tiles.height();
        let ghost labels = feilds@;
        let ghost default = default_pattern_text@;
        assert(is_cell_width(labels, default, max_len as nat));
        let mut text = String::new();
        let mut y: usize = 0;
        assert(text@ =~= pattern_text(tiles@, labels, default, max_len as nat, 0));
        while y < height
            invariant
                tiles.wf(),
                obeys_key_model::<T>(),
                width == tiles@.width,
                height == tiles@.height,
                labels == feilds@,
                default == default_pattern_text@,
                default_len == byte_len(default),
                is_cell_width(labels, default, max_len as nat),
                y <= height,
                text@ == pattern_text(tiles@, labels, default, max_len as nat, y as nat),
            decreases height - y,
        {
            let ghost start = text@;
            let mut x: usize = 0;
            assert(text@ =~= start + row_cells_text(
                tiles@,
                labels,
                default,
                max_len as nat,
                y as int,
                0,
            ));
            while x < width
                invariant
                    tiles.wf(),
                    obeys_key_model::<T>(),
                    width == tiles@.width,
                    height == tiles@.height,
                    labels == feilds@,
                    default == default_pattern_text@,
                    default_len == byte_len(default),
                    is_cell_width(labels, default, max_len as nat),
                    y < height,
                    x <= width,
                    text@ == start + row_cells_text(
                        tiles@,
                        labels,
                        default,
                        max_len as nat,
                        y as int,
                        x as nat,
                    ),
                decreases width - x,
            {
                let label = match feilds.get(tiles.at(x, y)) {
                    Some(tile_text) => tile_text.as_str(),
                    None => default_pattern_text.as_str(),
                };
                assert(label@ == label_of(labels, default, tiles@.at(x as int, y as int)));
                assert(byte_len(label@) <= max_len) by {
                    if labels.contains_key(tiles@.at(x as int, y as int)) {
                        assert(labels.values().contains(labels[tiles@.at(x as int, y as int)]));
                    }
                }
                let text_len = label.len();
                let prefix_space_len = (max_len - text_len) / 2;
                let ghost before = text@;
                text.append("[");
                text.append(spaces(prefix_space_len).as_str());
                text.append(label);
                let postfix_space_len = max_len - prefix_space_len - text_len;
                text.append(spaces(postfix_space_len).as_str());
                text.append("]");
                assert(text@ =~= before + cell_text(label@, max_len as nat));
                x = x + 1;
            }
            text.append("\n");
            y = y + 1;
        }
        text
    }
}

} // verus!
