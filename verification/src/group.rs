//! Nine-slot counter vectors, one slot for each of the values 1 to 9.

use vstd::prelude::*;

verus! {

/// Values (for example counters) for the nine positions of a row, column or
/// box, or for the nine values that a cell may take. Slot `n - 1` belongs to
/// the value `n`.
pub type Group = [u8; 9];

/// Adds two groups slot by slot, producing a new group.
pub fn add(a: Group, b: &Group) -> (sum: Group)
    requires
        forall|i: int| 0 <= i < 9 ==> a[i] + b[i] <= u8::MAX,
    ensures
        forall|i: int| 0 <= i < 9 ==> sum[i] == a[i] + b[i],
{
    let mut sum: Group = [0u8; 9];
    let mut i: usize = 0;
    while i < 9
        invariant
            i <= 9,
            forall|j: int| 0 <= j < 9 ==> a[j] + b[j] <= u8::MAX,
            forall|j: int| 0 <= j < i ==> sum[j] == a[j] + b[j],
        decreases 9 - i,
    {
        sum[i] = a[i] + b[i];
        i += 1;
    }
    sum
}

/// Subtracts one group from another slot by slot, producing a new group.
pub fn sub(a: Group, b: &Group) -> (difference: Group)
    requires
        forall|i: int| 0 <= i < 9 ==> b[i] <= a[i],
    ensures
        forall|i: int| 0 <= i < 9 ==> difference[i] == a[i] - b[i],
{
    let mut difference: Group = [0u8; 9];
    let mut i: usize = 0;
    while i < 9
        invariant
            i <= 9,
            forall|j: int| 0 <= j < 9 ==> b[j] <= a[j],
            forall|j: int| 0 <= j < i ==> difference[j] == a[j] - b[j],
        decreases 9 - i,
    {
        difference[i] = a[i] - b[i];
        i += 1;
    }
    difference
}

/// Produces a new group from the leading values of `src`; slots for which
/// `src` has no value stay zero, and values past the ninth are ignored.
pub fn new_array_from(src: &[u8]) -> (group: Group)
    ensures
        forall|i: int| 0 <= i < 9 ==> group[i] == (if i < src@.len() { src@[i] } else { 0u8 }),
{
    let mut group: Group = [0u8; 9];
    let mut i: usize = 0;
    while i < 9 && i < src.len()
        invariant
            i <= 9,
            i <= src@.len(),
            forall|j: int| 0 <= j < i ==> group[j] == src@[j],
            forall|j: int| i <= j < 9 ==> group[j] == 0u8,
        decreases 9 - i,
    {
        group[i] = src[i];
        i += 1;
    }
    group
}

} // verus!
