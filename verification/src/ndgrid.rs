use vstd::prelude::*;
use ndarray::Array3;

verus! {

/// A dense three-dimensional table of `usize` entries, stored in an `ndarray::Array3`.
#[verifier::external_body]
pub struct CellGrid {
    cells: Array3<usize>,
}

/// The entries of a `CellGrid`, keyed by their `(i, j, k)` index; the domain is the index box.
pub uninterp spec fn grid_cells(g: CellGrid) -> Map<(int, int, int), usize>;

/// The box `[0, d0) x [0, d1) x [0, d2)` of three-dimensional indices.
pub open spec fn index_box(d0: int, d1: int, d2: int) -> Set<(int, int, int)> {
    Set::new(|t: (int, int, int)| 0 <= t.0 < d0 && 0 <= t.1 < d1 && 0 <= t.2 < d2)
}

/// An axis length as it counts towards ndarray's size limit: zero-length axes count as one.
pub open spec fn nonzero_len(d: int) -> int {
    if d == 0 { 1 } else { d }
}

/// `ndarray::Array3::from_elem((d0, d1, d2), elem)`: every index of the box holds `elem`.
/// ndarray panics when the product of the non-zero axis lengths exceeds `isize::MAX`,
/// which `requires` rules out.
#[verifier::external_body]
pub(crate) fn grid_filled(d0: usize, d1: usize, d2: usize, elem: usize) -> (g: CellGrid)
    requires
        nonzero_len(d0 as int) * nonzero_len(d1 as int) * nonzero_len(d2 as int) <= isize::MAX,
    ensures
        grid_cells(g).dom() == index_box(d0 as int, d1 as int, d2 as int),
        forall|t: (int, int, int)| #[trigger] grid_cells(g).dom().contains(t) ==> grid_cells(g)[t] == elem,
{
    CellGrid { cells: Array3::from_elem((d0, d1, d2), elem) }
}

/// `a[[i, j, k]]` on the array: the entry at that index. ndarray panics out of bounds.
#[verifier::external_body]
pub(crate) fn grid_get(g: &CellGrid, i: usize, j: usize, k: usize) -> (v: usize)
    requires
        grid_cells(*g).dom().contains((i as int, j as int, k as int)),
    ensures
        v == grid_cells(*g)[(i as int, j as int, k as int)],
{
    g.cells[[i, j, k]]
}

/// `a[[i, j, k]] = v` on the array: that one entry changes, the rest and the shape stay.
/// ndarray panics out of bounds.
#[verifier::external_body]
pub(crate) fn grid_set(g: &mut CellGrid, i: usize, j: usize, k: usize, v: usize)
    requires
        grid_cells(*old(g)).dom().contains((i as int, j as int, k as int)),
    ensures
        grid_cells(*final(g)) == grid_cells(*old(g)).insert((i as int, j as int, k as int), v),
{
    g.cells[[i, j, k]] = v;
}

} // verus!
