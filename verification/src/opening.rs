//! Opening a position of the environment: the flood with its work-list,
//! the refresh of the scores around what was opened, and the ranking.

use crate::cell::{Content, Coord};
use crate::coords::CoordSet;
use crate::count::{lemma_outside_shrinks, outside};
use crate::env::{Env, OpenError};
use crate::flood::{lemma_closed_is_region, lemma_open, lemma_refresh_cells, lemma_region_start};
use crate::flood::{flood_closed, lemma_region_step, lemma_uncover, not_in};
use crate::grid::{dim, in_grid, lemma_neighbour_seq, neighbours_in};
use crate::model::State;
use crate::seqs::lemma_filter_take_step;
use vstd::prelude::*;

verus! {

/// Whether `f` is closed under the flood but for the positions in `work`:
/// with a cell that has no mine around it and is not waiting in `work`, it
/// holds each neighbour that flooding may open.
pub open spec fn closed_but(s: State, f: Set<Coord>, work: Seq<Coord>) -> bool {
    forall|d: Coord, t: int|
        f.contains(d) && s.is_blank(d) && !work.contains(d) && 0 <= t < s.around(d).len()
            && s.floodable(#[trigger] s.around(d)[t]) ==> f.contains(s.around(d)[t])
}

impl Env {
    /// Whether the sets of `self` are those of `s` with `fresh` opened, on
    /// a board and a frontier that have not changed.
    pub open spec fn flooding(&self, s: &Env, fresh: &CoordSet) -> bool {
        &&& self.m == s.m
        &&& self.marked == s.marked
        &&& self.stack == s.stack
        &&& self.opened.fits(s.height(), s.width())
        &&& self.left.fits(s.height(), s.width())
        &&& self.stacked.fits(s.height(), s.width())
        &&& fresh.fits(s.height(), s.width())
        &&& self.opened@ == s.opened@ + fresh@
        &&& self.left@ == s.left@ - fresh@
        &&& self.stacked@ == s.stacked@ - fresh@
    }

    /// Opens `d` in the course of a flood and puts it on the work-list.
    fn open_cell(&mut self, d: Coord, fresh: &mut CoordSet, work: &mut Vec<Coord>, s: Ghost<&Env>)
        requires
            old(self).flooding(s@, old(fresh)),
            in_grid(s@.height(), s@.width(), d),
        ensures
            final(self).flooding(s@, final(fresh)),
            final(fresh)@ == old(fresh)@.insert(d),
            final(work)@ == old(work)@.push(d),
    {
        self.opened.insert(d);
        self.left.remove(d);
        self.stacked.remove(d);
        fresh.insert(d);
        work.push(d);
        assert(self.opened@ =~= s@.opened@ + fresh@);
        assert(self.left@ =~= s@.left@ - fresh@);
        assert(self.stacked@ =~= s@.stacked@ - fresh@);
    }

    /// Floods open the region of `c`, with a work-list in place of
    /// recursion, and returns the region.
    fn flood(&mut self, c: Coord) -> (fresh: CoordSet)
        requires
            old(self).wf(),
            old(self)@.can_open(c),
            old(self)@.cells[c].content != Content::Mine,
        ensures
            final(self).flooding(old(self), &fresh),
            fresh@ == old(self)@.region(c),
    {
        let ghost s0 = self@;
        let (h, w) = dim(&self.m);
        let mut fresh = CoordSet::new(h, w);
        let mut work: Vec<Coord> = Vec::new();
        assert(self.opened@ =~= s0.opened + fresh@);
        assert(self.left@ =~= s0.left - fresh@);
        assert(self.stacked@ =~= s0.stacked - fresh@);
        self.open_cell(c, &mut fresh, &mut work, Ghost(old(self)));
        proof {
            lemma_region_start(s0, c);
            assert(work@[0] == c);
            assert forall|d: Coord| work@.contains(d) implies d == c by {}
        }
        while work.len() > 0
            invariant
                old(self).wf(),
                s0 == old(self)@,
                h == old(self).height(),
                w == old(self).width(),
                self.flooding(old(self), &fresh),
                fresh@.contains(c),
                forall|d: Coord| fresh@.contains(d) ==> #[trigger] s0.region(c).contains(d),
                forall|i: int| 0 <= i < work.len() ==> fresh@.contains(#[trigger] work@[i]),
                closed_but(s0, fresh@, work@),
            decreases outside(fresh@, w, h as int), work.len(),
        {
            let ghost work_full = work@;
            let ghost fresh0 = fresh@;
            let p = work.pop().unwrap();
            let ghost work0 = work@;
            assert(fresh@.contains(work_full[work_full.len() - 1]));
            assert(s0.region(c).contains(p));
            proof {
                crate::flood::lemma_region_members(s0, c, p);
            }
            let blank = match self.m[p.0][p.1].content {
                Content::Empty(v) => v == 0,
                Content::Mine => false,
            };
            assert(blank == s0.is_blank(p));
            if blank {
                let nbrs = neighbours_in(h, w, p);
                proof {
                    lemma_neighbour_seq(h, w, p);
                }
                let mut i: usize = 0;
                while i < nbrs.len()
                    invariant
                        i <= nbrs.len(),
                        old(self).wf(),
                        s0 == old(self)@,
                        h == old(self).height(),
                        w == old(self).width(),
                        self.flooding(old(self), &fresh),
                        nbrs@ == s0.around(p),
                        s0.is_blank(p),
                        s0.region(c).contains(p),
                        fresh@.contains(c),
                        forall|d: Coord| nbrs@.contains(d) ==> in_grid(h, w, d),
                        forall|d: Coord| fresh0.contains(d) ==> fresh@.contains(d),
                        forall|d: Coord| fresh@.contains(d) ==> #[trigger] s0.region(c).contains(d),
                        work0.len() <= work.len(),
                        forall|k: int| 0 <= k < work0.len() ==> #[trigger] work@[k] == work0[k],
                        forall|k: int| 0 <= k < work.len() ==> fresh@.contains(#[trigger] work@[k]),
                        forall|d: Coord|
                            fresh@.contains(d) && !fresh0.contains(d) ==> work@.contains(d),
                        forall|t: int|
                            0 <= t < i && s0.floodable(#[trigger] nbrs@[t]) ==> fresh@.contains(
                                nbrs@[t],
                            ),
                        outside(fresh@, w, h as int) <= outside(fresh0, w, h as int),
                        work.len() > work0.len() ==> outside(fresh@, w, h as int) < outside(
                            fresh0,
                            w,
                            h as int,
                        ),
                        work.len() == work0.len() ==> fresh@ == fresh0,
                    decreases nbrs.len() - i,
                {
                    let n = nbrs[i];
                    assert(nbrs@.contains(n));
                    let hidden = match self.m[n.0][n.1].content {
                        Content::Mine => true,
                        Content::Empty(_) => false,
                    };
                    if !hidden && !self.opened.contains(n) && !self.marked.contains(n) {
                        let ghost fresh1 = fresh@;
                        let ghost work1 = work@;
                        proof {
                            assert(s0.floodable(n));
                            lemma_region_step(s0, c, p, n);
                            lemma_outside_shrinks(fresh1, fresh1.insert(n), n, w, h);
                        }
                        self.open_cell(n, &mut fresh, &mut work, Ghost(old(self)));
                        proof {
                            crate::seqs::lemma_push_members(work1, n);
                            assert forall|k: int| 0 <= k < work0.len() implies #[trigger] work@[k]
                                == work0[k] by {
                                assert(work@[k] == work1[k]);
                            }
                            assert forall|k: int| 0 <= k < work.len() implies fresh@.contains(
                                #[trigger] work@[k],
                            ) by {
                                if k < work1.len() {
                                    assert(work@[k] == work1[k]);
                                }
                            }
                        }
                    } else {
                        assert(!s0.floodable(n) || fresh@.contains(n));
                    }
                    i += 1;
                }
            }
            proof {
                assert forall|d: Coord, t: int|
                    fresh@.contains(d) && s0.is_blank(d) && !work@.contains(d) && 0 <= t
                        < s0.around(d).len() && s0.floodable(
                        #[trigger] s0.around(d)[t],
                    ) implies fresh@.contains(s0.around(d)[t]) by {
                    if d == p {
                    } else if fresh0.contains(d) {
                        assert(!work_full.contains(d)) by {
                            if work_full.contains(d) {
                                let k = choose|k: int| 0 <= k < work_full.len() && work_full[k] == d;
                                assert(k < work0.len());
                                assert(work0[k] == d);
                                assert(work@[k] == d);
                            }
                        }
                        assert(fresh0.contains(s0.around(d)[t]));
                    } else {
                    }
                }
            }
        }
        proof {
            assert(flood_closed(s0, fresh@)) by {
                assert forall|d: Coord, t: int|
                    fresh@.contains(d) && s0.is_blank(d) && 0 <= t < s0.around(d).len()
                        && s0.floodable(#[trigger] s0.around(d)[t]) implies fresh@.contains(
                    s0.around(d)[t],
                ) by {
                    assert(!work@.contains(d));
                }
            }
            lemma_closed_is_region(s0, c, fresh@);
        }
        fresh
    }

    /// Takes the positions of `fresh` off the frontier.
    fn retain_outside(&mut self, fresh: &CoordSet)
        requires
            fresh.wf(),
        ensures
            final(self).stack@ == old(self).stack@.filter(not_in(fresh@)),
            final(self).m == old(self).m,
            final(self).opened == old(self).opened,
            final(self).left == old(self).left,
            final(self).marked == old(self).marked,
            final(self).stacked == old(self).stacked,
    {
        let mut kept: Vec<Coord> = Vec::new();
        let mut i: usize = 0;
        while i < self.stack.len()
            invariant
                i <= self.stack.len(),
                fresh.wf(),
                *self == *old(self),
                kept@ == self.stack@.take(i as int).filter(not_in(fresh@)),
            decreases self.stack.len() - i,
        {
            let d = self.stack[i];
            proof {
                lemma_filter_take_step(self.stack@, not_in(fresh@), i as int);
            }
            if !fresh.contains(d) {
                kept.push(d);
            }
            i += 1;
        }
        assert(self.stack@.take(self.stack.len() as int) == self.stack@);
        self.stack = kept;
    }

    /// Whether the opening of `fresh` changes what the cell at `k` has to
    /// say.
    fn is_stirred(&self, fresh: &CoordSet, k: Coord) -> (b: bool)
        requires
            self.shaped(),
            fresh.wf(),
        ensures
            b == self@.stirred(fresh@, k),
    {
        if !self.opened.contains(k) {
            return false;
        }
        if fresh.contains(k) {
            return true;
        }
        let (h, w) = dim(&self.m);
        let nbrs = neighbours_in(h, w, k);
        let mut t: usize = 0;
        while t < nbrs.len()
            invariant
                t <= nbrs.len(),
                fresh.wf(),
                nbrs@ == self@.around(k),
                self.opened@.contains(k),
                !fresh@.contains(k),
                forall|u: int| 0 <= u < t ==> !fresh@.contains(#[trigger] nbrs@[u]),
            decreases nbrs.len() - t,
        {
            if fresh.contains(nbrs[t]) {
                assert(fresh@.contains(self@.around(k)[t as int]));
                assert(self@.near(fresh@, k));
                return true;
            }
            t += 1;
        }
        false
    }

    /// Lets every stirred cell refresh its contribution, row by row.
    fn refresh(&mut self, fresh: &CoordSet)
        requires
            old(self).shaped(),
            old(self)@.coherent(),
            fresh.wf(),
        ensures
            final(self).shaped(),
            final(self)@ == old(self)@.refresh(fresh@),
    {
        let (h, w) = dim(&self.m);
        let ghost a = self@;
        let mut i: usize = 0;
        while i < h
            invariant
                i <= h,
                fresh.wf(),
                a == old(self)@,
                a.coherent(),
                h == a.h,
                w == a.w,
                self.shaped(),
                self@ == a.refresh_cells(fresh@, i as int, 0),
            decreases h - i,
        {
            let mut j: usize = 0;
            while j < w
                invariant
                    j <= w,
                    i < h,
                    fresh.wf(),
                    a == old(self)@,
                    a.coherent(),
                    h == a.h,
                    w == a.w,
                    self.shaped(),
                    self@ == a.refresh_cells(fresh@, i as int, j as int),
                decreases w - j,
            {
                proof {
                    lemma_refresh_cells(a, fresh@, i as int, j as int);
                }
                if self.is_stirred(fresh, (i, j)) {
                    self.update_neighbours_score((i, j));
                }
                j += 1;
            }
            i += 1;
        }
    }

    /// Opens `c`. Where `c` hides a mine nothing changes and the failure is
    /// reported. Otherwise the region of `c` floods open, every opened cell
    /// in or next to the region refreshes its contribution, and the
    /// frontier is ranked.
    pub fn open(&mut self, c: Coord) -> (r: Result<(), OpenError>)
        requires
            old(self).wf(),
            old(self)@.can_open(c),
        ensures
            final(self).wf(),
            match r {
                Err(_) => old(self)@.cells[c].content == Content::Mine && *final(self) == *old(
                    self,
                ),
                Ok(_) => {
                    &&& old(self)@.cells[c].content != Content::Mine
                    &&& final(self)@ == old(self)@.open(c)
                    &&& final(self)@.in_order()
                    &&& final(self)@.opened == old(self)@.opened + old(self)@.region(c)
                    &&& final(self)@.marked == old(self)@.marked
                    &&& final(self)@.left == old(self)@.left - old(self)@.region(c)
                    &&& final(self)@.opened.contains(c)
                    &&& old(self)@.sound() ==> final(self)@.sound()
                },
            },
    {
        match self.m[c.0][c.1].content {
            Content::Mine => {
                return Err(OpenError);
            },
            Content::Empty(_) => {},
        }
        let fresh = self.flood(c);
        self.retain_outside(&fresh);
        proof {
            let region = old(self)@.region(c);
            assert(self@.cells =~= old(self)@.uncover(region).cells);
            assert(self@ == old(self)@.uncover(region));
            lemma_uncover(old(self)@, c);
            lemma_refresh_cells(self@, region, self@.h as int, 0);
            lemma_open(old(self)@, c);
            if old(self)@.sound() {
                crate::trust::lemma_open_sound(old(self)@, c);
            }
        }
        self.refresh(&fresh);
        self.sort();
        Ok(())
    }
}

} // verus!
