//! What the library asks of the type of its tiles.

use vstd::prelude::*;
use vstd::std_specs::cmp::PartialEqSpec;

verus! {

/// Tiles of type `T` are plain values: `==` on two of them tells whether they are the
/// same value, and a clone is the same value as its source.
pub open spec fn plain_values<T: Clone + PartialEq>() -> bool {
    &&& T::obeys_eq_spec()
    &&& forall|a: T, b: T| #[trigger] a.eq_spec(&b) <==> a == b
    &&& forall|a: T, b: T| #[trigger] cloned(a, b) ==> a == b
}

/// The unsigned integers are plain values.
pub proof fn lemma_unsigned_are_plain_values()
    ensures
        plain_values::<u8>(),
        plain_values::<u16>(),
        plain_values::<u32>(),
        plain_values::<u64>(),
        plain_values::<usize>(),
{
}

/// Clones a tile.
pub fn copy_of<T: Clone + PartialEq>(tile: &T) -> (copy: T)
    requires
        plain_values::<T>(),
    ensures
        copy == *tile,
{
    let copy = tile.clone();
    assert(cloned(*tile, copy));
    copy
}

} // verus!
