//! Counting the positions of a grid that are outside a set. The count is
//! the measure by which flooding and play come to an end.

use crate::cell::Coord;
use vstd::prelude::*;

verus! {

/// The number of positions among the first `j` of row `i` that are not in
/// `s`.
pub open spec fn row_outside(s: Set<Coord>, i: usize, j: int) -> nat
    decreases j,
{
    if j <= 0 {
        0
    } else {
        row_outside(s, i, j - 1) + if s.contains((i, (j - 1) as usize)) {
            0nat
        } else {
            1nat
        }
    }
}

/// The number of positions in the first `i` rows of a grid of width `w`
/// that are not in `s`.
pub open spec fn outside(s: Set<Coord>, w: usize, i: int) -> nat
    decreases i,
{
    if i <= 0 {
        0
    } else {
        outside(s, w, i - 1) + row_outside(s, (i - 1) as usize, w as int)
    }
}

/// What a row loses when `x` joins the set.
pub proof fn lemma_row_insert(s: Set<Coord>, x: Coord, i: usize, j: int)
    requires
        0 <= j <= usize::MAX,
    ensures
        row_outside(s, i, j) == row_outside(s.insert(x), i, j) + if x.0 == i && x.1 < j
            && !s.contains(x) {
            1nat
        } else {
            0nat
        },
    decreases j,
{
    if j > 0 {
        lemma_row_insert(s, x, i, j - 1);
    }
}

/// The grid loses exactly one position outside the set when a position of
/// the grid joins it, and none when the position was in the set before or
/// is off the grid.
pub proof fn lemma_outside_insert(s: Set<Coord>, x: Coord, w: usize, i: int)
    requires
        0 <= i <= usize::MAX,
    ensures
        outside(s, w, i) == outside(s.insert(x), w, i) + if x.0 < i && x.1 < w && !s.contains(x) {
            1nat
        } else {
            0nat
        },
    decreases i,
{
    if i > 0 {
        lemma_outside_insert(s, x, w, i - 1);
        lemma_row_insert(s, x, (i - 1) as usize, w as int);
    }
}

/// A row holds no more positions outside a larger set.
pub proof fn lemma_row_monotone(s: Set<Coord>, t: Set<Coord>, i: usize, j: int)
    requires
        s.subset_of(t),
    ensures
        row_outside(t, i, j) <= row_outside(s, i, j),
    decreases j,
{
    if j > 0 {
        lemma_row_monotone(s, t, i, j - 1);
    }
}

/// The grid holds no more positions outside a larger set.
pub proof fn lemma_outside_monotone(s: Set<Coord>, t: Set<Coord>, w: usize, i: int)
    requires
        s.subset_of(t),
    ensures
        outside(t, w, i) <= outside(s, w, i),
    decreases i,
{
    if i > 0 {
        lemma_outside_monotone(s, t, w, i - 1);
        lemma_row_monotone(s, t, (i - 1) as usize, w as int);
    }
}

/// The grid holds fewer positions outside a larger set that has gained one
/// of its positions.
pub proof fn lemma_outside_shrinks(s: Set<Coord>, t: Set<Coord>, x: Coord, w: usize, h: usize)
    requires
        s.subset_of(t),
        x.0 < h,
        x.1 < w,
        !s.contains(x),
        t.contains(x),
    ensures
        outside(t, w, h as int) < outside(s, w, h as int),
{
    lemma_outside_insert(s, x, w, h as int);
    assert(s.insert(x).subset_of(t));
    lemma_outside_monotone(s.insert(x), t, w, h as int);
}

} // verus!
