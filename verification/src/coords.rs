//! Sets of board positions, kept as one flag per position.

use crate::cell::Coord;
use crate::grid::in_grid;
use vstd::prelude::*;

verus! {

/// A set of positions of a grid with fixed dimensions.
pub struct CoordSet {
    /// One row of flags for each row of the grid.
    pub rows: Vec<Vec<bool>>,
    /// The length of every row.
    pub width: usize,
}

/// Whether `a` comes no later than `b`, row by row and within a row from
/// the first column on.
pub open spec fn precedes(a: Coord, b: Coord) -> bool {
    a.0 < b.0 || (a.0 == b.0 && a.1 <= b.1)
}

impl View for CoordSet {
    type V = Set<Coord>;

    /// The positions whose flag is set.
    open spec fn view(&self) -> Set<Coord> {
        Set::new(
            |c: Coord|
                c.0 < self.rows.len() && c.1 < self.width && self.rows[c.0 as int][c.1 as int],
        )
    }
}

impl CoordSet {
    /// Every row has the set's width.
    pub open spec fn wf(&self) -> bool {
        forall|i: int| 0 <= i < self.rows.len() ==> (#[trigger] self.rows[i]).len() == self.width
    }

    /// The number of rows of the grid.
    pub open spec fn height(&self) -> usize {
        self.rows.len()
    }

    /// Whether the set is one over a grid of `h` rows and `w` columns.
    pub open spec fn fits(&self, h: usize, w: usize) -> bool {
        self.wf() && self.rows.len() == h && self.width == w
    }

    /// The empty set over a grid of `h` rows and `w` columns.
    pub fn new(h: usize, w: usize) -> (s: CoordSet)
        ensures
            s.fits(h, w),
            s@ == Set::<Coord>::empty(),
    {
        let mut rows: Vec<Vec<bool>> = Vec::new();
        let mut i: usize = 0;
        while i < h
            invariant
                i <= h,
                rows.len() == i,
                forall|a: int| 0 <= a < i ==> (#[trigger] rows[a]).len() == w,
                forall|a: int, b: int| 0 <= a < i && 0 <= b < w ==> !(#[trigger] rows[a][b]),
            decreases h - i,
        {
            let mut row: Vec<bool> = Vec::new();
            let mut j: usize = 0;
            while j < w
                invariant
                    j <= w,
                    row.len() == j,
                    forall|b: int| 0 <= b < j ==> !(#[trigger] row[b]),
                decreases w - j,
            {
                row.push(false);
                j += 1;
            }
            rows.push(row);
            i += 1;
        }
        let s = CoordSet { rows, width: w };
        assert(s@ =~= Set::<Coord>::empty());
        s
    }

    /// The set of all positions of a grid of `h` rows and `w` columns.
    pub fn full(h: usize, w: usize) -> (s: CoordSet)
        ensures
            s.fits(h, w),
            s@ == Set::new(|c: Coord| in_grid(h, w, c)),
    {
        let mut rows: Vec<Vec<bool>> = Vec::new();
        let mut i: usize = 0;
        while i < h
            invariant
                i <= h,
                rows.len() == i,
                forall|a: int| 0 <= a < i ==> (#[trigger] rows[a]).len() == w,
                forall|a: int, b: int| 0 <= a < i && 0 <= b < w ==> #[trigger] rows[a][b],
            decreases h - i,
        {
            let mut row: Vec<bool> = Vec::new();
            let mut j: usize = 0;
            while j < w
                invariant
                    j <= w,
                    row.len() == j,
                    forall|b: int| 0 <= b < j ==> #[trigger] row[b],
                decreases w - j,
            {
                row.push(true);
                j += 1;
            }
            rows.push(row);
            i += 1;
        }
        let s = CoordSet { rows, width: w };
        assert(s@ =~= Set::new(|c: Coord| in_grid(h, w, c)));
        s
    }

    /// Whether `c` is in the set.
    pub fn contains(&self, c: Coord) -> (b: bool)
        requires
            self.wf(),
        ensures
            b == self@.contains(c),
            b ==> in_grid(self.height(), self.width, c),
    {
        c.0 < self.rows.len() && c.1 < self.width && self.rows[c.0][c.1]
    }

    /// The first position of the set, row by row and within a row from the
    /// first column on, if the set has any.
    pub fn first(&self) -> (r: Option<Coord>)
        requires
            self.wf(),
        ensures
            match r {
                None => self@ == Set::<Coord>::empty(),
                Some(c) => self@.contains(c) && forall|d: Coord| #[trigger]
                    self@.contains(d) ==> precedes(c, d),
            },
    {
        let h = self.rows.len();
        let mut i: usize = 0;
        while i < h
            invariant
                i <= h,
                h == self.rows.len(),
                self.wf(),
                forall|d: Coord| #[trigger] self@.contains(d) ==> d.0 >= i,
            decreases h - i,
        {
            let mut j: usize = 0;
            while j < self.width
                invariant
                    j <= self.width,
                    i < h,
                    h == self.rows.len(),
                    self.wf(),
                    forall|d: Coord| #[trigger]
                        self@.contains(d) ==> d.0 > i || (d.0 == i && d.1 >= j),
                decreases self.width - j,
            {
                if self.rows[i][j] {
                    return Some((i, j));
                }
                j += 1;
            }
            i += 1;
        }
        assert(self@ =~= Set::<Coord>::empty());
        None
    }

    /// Whether the set holds no position.
    pub fn is_empty(&self) -> (b: bool)
        requires
            self.wf(),
        ensures
            b == (self@ == Set::<Coord>::empty()),
    {
        match self.first() {
            None => true,
            Some(c) => {
                assert(self@.contains(c));
                false
            },
        }
    }

    /// The positions of the set, row by row and within a row from the
    /// first column on.
    pub fn to_vec(&self) -> (v: Vec<Coord>)
        requires
            self.wf(),
        ensures
            forall|c: Coord| #[trigger] v@.contains(c) <==> self@.contains(c),
            forall|a: int, b: int|
                0 <= a < b < v.len() ==> precedes(#[trigger] v[a], #[trigger] v[b]) && v[a] != v[b],
            v@.no_duplicates(),
    {
        let h = self.rows.len();
        let mut v: Vec<Coord> = Vec::new();
        let mut i: usize = 0;
        while i < h
            invariant
                i <= h,
                h == self.rows.len(),
                self.wf(),
                forall|c: Coord| #[trigger] v@.contains(c) <==> (self@.contains(c) && c.0 < i),
                forall|a: int, b: int|
                    0 <= a < b < v.len() ==> precedes(#[trigger] v[a], #[trigger] v[b]) && v[a]
                        != v[b],
            decreases h - i,
        {
            let mut j: usize = 0;
            while j < self.width
                invariant
                    j <= self.width,
                    i < h,
                    h == self.rows.len(),
                    self.wf(),
                    forall|c: Coord| #[trigger]
                        v@.contains(c) <==> (self@.contains(c) && (c.0 < i || (c.0 == i && c.1
                            < j))),
                    forall|a: int, b: int|
                        0 <= a < b < v.len() ==> precedes(#[trigger] v[a], #[trigger] v[b]) && v[a]
                            != v[b],
                decreases self.width - j,
            {
                if self.rows[i][j] {
                    proof {
                        crate::seqs::lemma_push_members(v@, (i, j));
                        assert forall|a: int| 0 <= a < v.len() implies precedes(
                            #[trigger] v[a],
                            (i, j),
                        ) && v[a] != (i, j) by {
                            assert(v@.contains(v[a]));
                        }
                    }
                    v.push((i, j));
                }
                j += 1;
            }
            i += 1;
        }
        v
    }

    /// The number of positions in the set.
    pub fn len(&self) -> (n: usize)
        requires
            self.wf(),
        ensures
            self@.finite(),
            n == self@.len(),
    {
        let v = self.to_vec();
        proof {
            assert(v@.to_set() =~= self@);
            v@.unique_seq_to_set();
            vstd::seq_lib::seq_to_set_is_finite(v@);
        }
        v.len()
    }

    /// Adds `c` to the set.
    pub fn insert(&mut self, c: Coord)
        requires
            old(self).wf(),
            in_grid(old(self).height(), old(self).width, c),
        ensures
            final(self).fits(old(self).height(), old(self).width),
            final(self)@ == old(self)@.insert(c),
    {
        self.rows[c.0][c.1] = true;
        assert(self@ =~= old(self)@.insert(c));
    }

    /// Takes `c` out of the set; a position off the grid is in no set.
    pub fn remove(&mut self, c: Coord)
        requires
            old(self).wf(),
        ensures
            final(self).fits(old(self).height(), old(self).width),
            final(self)@ == old(self)@.remove(c),
    {
        if c.0 < self.rows.len() && c.1 < self.width {
            self.rows[c.0][c.1] = false;
        }
        assert(self@ =~= old(self)@.remove(c));
    }
}

} // verus!
