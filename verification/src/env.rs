//! The solver environment: the board, the sets that divide it, and the
//! frontier, with the operations that reveal, flag and rank cells.

use crate::cell::{same_coord, Cell, Content, Coord, CERTAIN};
use crate::coords::CoordSet;
use crate::grid::{dim, in_grid, neighbours_in};
use crate::model::{lemma_covered_around, lemma_note, lemma_propagate, lemma_risk_range, risk};
use crate::model::{CellView, State};
use crate::frontier::{lemma_place_skips, lemma_ranked, lemma_sorted, place, ranked};
use crate::moves::{differs, lemma_mark, lemma_mark_core, lemma_mark_each, lemma_mark_obvious};
use crate::moves::lemma_pop;
use crate::score::Score;
use crate::seqs::lemma_filter_take_step;
use vstd::prelude::*;

verus! {

/// The one failure of the solver: the position to open hides a mine.
#[derive(Debug)]
pub struct OpenError;

/// The solver environment of one game.
pub struct Env {
    /// The board, row by row.
    pub m: Vec<Vec<Cell>>,
    /// Opened positions.
    pub opened: CoordSet,
    /// Positions left to decide: not opened, not flagged, not in hand.
    pub left: CoordSet,
    /// Positions flagged as mines.
    pub marked: CoordSet,
    /// The frontier; its last entry is the next position to take.
    pub stack: Vec<Coord>,
    /// The positions that are on the frontier.
    pub stacked: CoordSet,
}

impl View for Env {
    type V = State;

    open spec fn view(&self) -> State {
        State {
            h: self.height(),
            w: self.width(),
            cells: Map::new(
                |c: Coord| in_grid(self.height(), self.width(), c),
                |c: Coord|
                    CellView {
                        content: self.m[c.0 as int][c.1 as int].content,
                        notes: self.m[c.0 as int][c.1 as int].scores@,
                    },
            ),
            opened: self.opened@,
            left: self.left@,
            marked: self.marked@,
            frontier: self.stack@,
            stacked: self.stacked@,
        }
    }
}

/// The risk that an opened cell assigns to each of its `covered` covered
/// neighbours when `remaining` mines around it carry no flag.
pub fn contribution(covered: usize, remaining: usize) -> (r: i32)
    ensures
        r == risk(covered as int, remaining as int),
        0 <= r <= CERTAIN,
{
    proof {
        lemma_risk_range(covered as int, remaining as int);
    }
    if covered <= remaining {
        1000
    } else if remaining == 0 {
        0
    } else {
        let share: usize = 100 / covered;
        assert(share * remaining == (100int / (covered as int)) * (remaining as int));
        (share * remaining) as i32
    }
}

impl Env {
    /// The number of rows of the board.
    pub open spec fn height(&self) -> usize {
        self.m.len()
    }

    /// The number of columns of the board.
    pub open spec fn width(&self) -> usize {
        if self.m.len() > 0 {
            self.m[0].len()
        } else {
            0
        }
    }

    /// The board is rectangular, every cell's score is up to date, and the
    /// four sets have the board's dimensions.
    pub open spec fn shaped(&self) -> bool {
        &&& forall|i: int| 0 <= i < self.m.len() ==> (#[trigger] self.m[i]).len() == self.width()
        &&& forall|i: int, j: int|
            0 <= i < self.m.len() && 0 <= j < self.width() ==> (#[trigger] self.m[i][j]).wf()
        &&& self.opened.fits(self.height(), self.width())
        &&& self.left.fits(self.height(), self.width())
        &&& self.marked.fits(self.height(), self.width())
        &&& self.stacked.fits(self.height(), self.width())
    }

    /// The environment is well formed: shaped, and its state valid.
    pub open spec fn wf(&self) -> bool {
        self.shaped() && self@.valid()
    }

    /// The cell at `c`.
    pub fn get(&self, c: Coord) -> (cell: &Cell)
        requires
            self.shaped(),
            self@.on_board(c),
        ensures
            *cell == self.m[c.0 as int][c.1 as int],
            cell.content == self@.cells[c].content,
            cell.scores@ == self@.cells[c].notes,
            cell.score == self@.score_at(c),
    {
        &self.m[c.0][c.1]
    }

    /// Refreshes the contribution of `c` to its covered neighbours: counts
    /// the flags and the covered cells around `c`, writes the resulting risk
    /// into each covered neighbour, and puts on the frontier those that are
    /// not there yet. Every covered neighbour counts and is written to, also
    /// one whose score says that it is safe.
    pub fn update_neighbours_score(&mut self, c: Coord)
        requires
            old(self).shaped(),
            old(self)@.coherent(),
            old(self)@.on_board(c),
        ensures
            final(self).shaped(),
            final(self)@ == old(self)@.propagate(c),
            final(self)@.coherent(),
            old(self)@.valid() ==> final(self)@.valid(),
            old(self)@.sound() && old(self)@.opened.contains(c) ==> final(self)@.sound(),
    {
        let (h, w) = dim(&self.m);
        let nbrs = neighbours_in(h, w, c);
        let mut flagged: usize = 0;
        let mut covered: Vec<Coord> = Vec::new();
        let mut i: usize = 0;
        while i < nbrs.len()
            invariant
                i <= nbrs.len(),
                nbrs@ == self@.around(c),
                *self == *old(self),
                self.shaped(),
                flagged == nbrs@.take(i as int).filter(self@.is_flagged()).len(),
                flagged <= i,
                covered@ == nbrs@.take(i as int).filter(self@.is_covered()),
            decreases nbrs.len() - i,
        {
            let d = nbrs[i];
            proof {
                lemma_filter_take_step(nbrs@, self@.is_flagged(), i as int);
                lemma_filter_take_step(nbrs@, self@.is_covered(), i as int);
            }
            if self.marked.contains(d) {
                flagged += 1;
            } else if !self.opened.contains(d) {
                covered.push(d);
            }
            i += 1;
        }
        assert(nbrs@.take(nbrs.len() as int) == nbrs@);
        let remaining: usize = match self.m[c.0][c.1].content {
            Content::Empty(n) => if n as i64 > flagged as i64 {
                (n as i64 - flagged as i64) as usize
            } else {
                0
            },
            Content::Mine => 0,
        };
        assert(remaining == self@.remaining(c));
        let value = contribution(covered.len(), remaining);
        assert(value == self@.verdict(c));
        proof {
            lemma_covered_around(self@, c);
            lemma_propagate(self@, c);
            if self@.sound() && self@.opened.contains(c) {
                crate::trust::lemma_propagate_sound(self@, c);
            }
        }
        let mut t: usize = 0;
        while t < covered.len()
            invariant
                t <= covered.len(),
                0 <= value <= CERTAIN,
                old(self).shaped(),
                old(self)@.coherent(),
                covered@ == old(self)@.covered_around(c),
                forall|k: int|
                    0 <= k < covered.len() ==> old(self)@.on_board(#[trigger] covered[k])
                        && old(self)@.covered(covered[k]),
                self.shaped(),
                self@ == old(self)@.deliver(c, value, covered@.take(t as int)),
            decreases covered.len() - t,
        {
            let d = covered[t];
            let ghost before = self@;
            proof {
                let part = covered@.take(t as int);
                assert forall|k: int| 0 <= k < part.len() implies old(self)@.on_board(
                    #[trigger] part[k],
                ) && old(self)@.covered(part[k]) by {
                    assert(part[k] == covered[k]);
                }
                crate::model::lemma_deliver(old(self)@, c, value, part);
                assert(before.on_board(d) && before.covered(d));
                lemma_note(before, d, c, value);
                assert(covered@.take(t + 1).drop_last() == part);
                assert(covered@.take(t + 1).last() == d);
            }
            self.m[d.0][d.1].insert(c, value);
            if !self.stacked.contains(d) {
                self.stacked.insert(d);
                self.stack.push(d);
            }
            assert(self@.cells =~= before.note(d, c, value).cells);
            assert(self@.stacked =~= before.note(d, c, value).stacked);
            assert(self@ == before.note(d, c, value));
            t += 1;
        }
        assert(covered@.take(covered.len() as int) == covered@);
    }

    /// Ranks the frontier: highest rank first, so that certain mines lead
    /// and the safest position is the next to be taken; positions of equal
    /// rank keep their order.
    pub fn sort(&mut self)
        requires
            old(self).wf(),
        ensures
            final(self).wf(),
            final(self)@ == old(self)@.sorted(),
            final(self)@.in_order(),
            final(self)@.frontier.len() == old(self)@.frontier.len(),
            final(self)@.frontier.to_set() == old(self)@.frontier.to_set(),
            old(self)@.in_order() ==> final(self)@ == old(self)@,
            old(self)@.sound() ==> final(self)@.sound(),
    {
        let n = self.stack.len();
        let ghost key = self@.rank_key();
        let ghost orig = self.stack@;
        let mut i: usize = 0;
        assert(self.stack@ == ranked(orig.take(0), key) + orig.skip(0));
        while i < n
            invariant
                i <= n,
                n == self.stack.len(),
                n == orig.len(),
                orig == old(self).stack@,
                key == old(self)@.rank_key(),
                old(self).wf(),
                self.m == old(self).m,
                self.opened == old(self).opened,
                self.left == old(self).left,
                self.marked == old(self).marked,
                self.stacked == old(self).stacked,
                forall|t: int| 0 <= t < n ==> self@.on_board(#[trigger] self.stack@[t]),
                self.stack@ == ranked(orig.take(i as int), key) + orig.skip(i as int),
            decreases n - i,
        {
            let ghost done = ranked(orig.take(i as int), key);
            proof {
                lemma_ranked(orig.take(i as int), key);
            }
            let x = self.stack[i];
            assert(x == orig[i as int]);
            let kx = self.m[x.0][x.1].score.rank_value();
            assert(kx == key(x));
            let mut j: usize = i;
            assert(self.stack@ == done.take(j as int).push(x) + done.skip(j as int) + orig.skip(
                i + 1,
            ));
            while j > 0
                invariant
                    j <= i,
                    i < n,
                    n == self.stack.len(),
                    n == orig.len(),
                    key == old(self)@.rank_key(),
                    old(self).wf(),
                    self.m == old(self).m,
                    self.opened == old(self).opened,
                    self.left == old(self).left,
                    self.marked == old(self).marked,
                    self.stacked == old(self).stacked,
                    kx == key(x),
                    done.len() == i,
                    forall|t: int| 0 <= t < n ==> self@.on_board(#[trigger] self.stack@[t]),
                    forall|t: int| j <= t < i ==> key(#[trigger] done[t]) < kx,
                    self.stack@ == done.take(j as int).push(x) + done.skip(j as int) + orig.skip(
                        i + 1,
                    ),
                ensures
                    j == 0 || key(done[j - 1]) >= kx,
                decreases j,
            {
                let y = self.stack[j - 1];
                assert(y == done[j - 1]);
                let ky = self.m[y.0][y.1].score.rank_value();
                assert(ky == key(y));
                if ky >= kx {
                    break;
                }
                let ghost before = self.stack@;
                self.stack.set(j, y);
                self.stack.set(j - 1, x);
                assert(self.stack@ == before.update(j as int, y).update(j - 1, x));
                assert forall|t: int| 0 <= t < n implies self@.on_board(
                    #[trigger] self.stack@[t],
                ) by {
                    assert(self@.on_board(before[j as int]) && self@.on_board(before[j - 1]));
                    if t != j && t != j - 1 {
                        assert(self.stack@[t] == before[t]);
                    }
                }
                assert(self.stack@ == done.take(j - 1).push(x) + done.skip(j - 1) + orig.skip(
                    i + 1,
                ));
                j -= 1;
            }
            proof {
                lemma_place_skips(done, x, key, j as int);
                let head = done.take(j as int);
                if j > 0 {
                    assert(head.last() == done[j - 1]);
                }
                assert(place(head, x, key) == head.push(x));
                assert(orig.take(i + 1).drop_last() == orig.take(i as int));
                assert(orig.take(i + 1).last() == x);
                assert(ranked(orig.take(i + 1), key) == place(done, x, key));
            }
            i += 1;
        }
        proof {
            assert(orig.take(n as int) == orig);
            assert(self.stack@ == ranked(orig, key));
            lemma_sorted(old(self)@);
            assert(self@ == old(self)@.sorted());
            crate::moves::lemma_sort_idempotent(old(self)@);
            if old(self)@.sound() {
                crate::trust::lemma_sorted_sound(old(self)@);
            }
        }
    }

    /// Takes the next position from the frontier, if there is one: it
    /// leaves the frontier and the positions left.
    pub fn pop(&mut self) -> (r: Option<Coord>)
        requires
            old(self).wf(),
        ensures
            final(self).wf(),
            old(self)@.in_order() ==> final(self)@.in_order(),
            old(self)@.sound() ==> final(self)@.sound(),
            match r {
                None => old(self)@.frontier.len() == 0 && final(self)@ == old(self)@,
                Some(c) => {
                    &&& old(self)@.frontier.len() > 0
                    &&& c == old(self)@.frontier.last()
                    &&& final(self)@ == old(self)@.pop()
                    &&& final(self)@.on_board(c)
                    &&& final(self)@.covered(c)
                },
            },
    {
        match self.stack.pop() {
            Some(c) => {
                self.stacked.remove(c);
                self.left.remove(c);
                proof {
                    lemma_pop(old(self)@);
                    assert(self@.cells =~= old(self)@.pop().cells);
                    assert(self@ == old(self)@.pop());
                    if old(self)@.sound() {
                        crate::trust::lemma_pop_sound(old(self)@);
                    }
                }
                Some(c)
            },
            None => None,
        }
    }

    /// Flags `c` and lets each opened neighbour of `c` refresh its
    /// contribution; `c` keeps its place in the frontier.
    fn mark_core(&mut self, c: Coord)
        requires
            old(self).shaped(),
            old(self)@.coherent(),
            old(self)@.on_board(c),
            !old(self)@.opened.contains(c),
        ensures
            final(self).shaped(),
            final(self)@ == old(self)@.mark_core(c),
            final(self)@.coherent(),
    {
        self.stacked.remove(c);
        self.marked.insert(c);
        self.left.remove(c);
        let ghost f = self@;
        proof {
            assert(self@.cells =~= old(self)@.flag(c).cells);
            assert(f == old(self)@.flag(c));
            lemma_mark_core(old(self)@, c);
            crate::moves::lemma_flag(old(self)@, c);
        }
        let (h, w) = dim(&self.m);
        let nbrs = neighbours_in(h, w, c);
        let mut i: usize = 0;
        while i < nbrs.len()
            invariant
                i <= nbrs.len(),
                f.coherent(),
                nbrs@ == f.around(c),
                self.shaped(),
                self@.coherent(),
                self@.opened == f.opened,
                self@.h == f.h,
                self@.w == f.w,
                self@ == f.propagate_all(nbrs@.take(i as int).filter(f.is_opened())),
            decreases nbrs.len() - i,
        {
            let k = nbrs[i];
            proof {
                lemma_filter_take_step(nbrs@, f.is_opened(), i as int);
            }
            if self.opened.contains(k) {
                let ghost part = nbrs@.take(i as int).filter(f.is_opened());
                proof {
                    assert(part.push(k).drop_last() == part);
                    assert(part.push(k).last() == k);
                    crate::model::lemma_propagate(self@, k);
                }
                self.update_neighbours_score(k);
            }
            i += 1;
        }
        assert(nbrs@.take(nbrs.len() as int) == nbrs@);
    }

    /// Takes `c` off the frontier, wherever it stands there.
    fn unstack(&mut self, c: Coord)
        ensures
            final(self).stack@ == old(self).stack@.filter(differs(c)),
            final(self).m == old(self).m,
            final(self).opened == old(self).opened,
            final(self).left == old(self).left,
            final(self).marked == old(self).marked,
            final(self).stacked == old(self).stacked,
    {
        let mut kept: Vec<Coord> = Vec::new();
        let mut i: usize = 0;
        while i < self.stack.len()
            invariant
                i <= self.stack.len(),
                *self == *old(self),
                kept@ == self.stack@.take(i as int).filter(differs(c)),
            decreases self.stack.len() - i,
        {
            let d = self.stack[i];
            proof {
                lemma_filter_take_step(self.stack@, differs(c), i as int);
            }
            if !same_coord(d, c) {
                kept.push(d);
            }
            i += 1;
        }
        assert(self.stack@.take(self.stack.len() as int) == self.stack@);
        self.stack = kept;
    }

    /// Flags `c` as a mine. The position joins the flagged ones and leaves
    /// those left and the frontier; each opened neighbour of `c` refreshes
    /// its contribution. Whether `c` hides a mine is not looked at.
    pub fn mark(&mut self, c: Coord)
        requires
            old(self).wf(),
            old(self)@.on_board(c),
            !old(self)@.opened.contains(c),
        ensures
            final(self).wf(),
            final(self)@ == old(self)@.mark(c),
            final(self)@.marked == old(self)@.marked.insert(c),
            final(self)@.left == old(self)@.left.remove(c),
            final(self)@.opened == old(self)@.opened,
            !final(self)@.frontier.contains(c),
            old(self)@.sound() && old(self)@.cells[c].content == Content::Mine
                ==> final(self)@.sound(),
    {
        self.mark_core(c);
        self.unstack(c);
        proof {
            lemma_mark(old(self)@, c);
            assert(self@.cells =~= old(self)@.mark(c).cells);
            assert(self@ == old(self)@.mark(c));
            if old(self)@.sound() && old(self)@.cells[c].content == Content::Mine {
                crate::trust::lemma_mark_sound(old(self)@, c);
            }
        }
    }

    /// Flags the leading run of frontier positions whose score is `Mine`,
    /// takes the run off the frontier, ranks the rest, and returns the
    /// length of the run.
    pub fn mark_obvious(&mut self) -> (n: usize)
        requires
            old(self).wf(),
        ensures
            final(self).wf(),
            old(self)@.mine_run(n as int),
            final(self)@ == old(self)@.mark_obvious(n as int),
            final(self)@.in_order(),
            final(self)@.marked == old(self)@.marked + old(self)@.frontier.take(n as int).to_set(),
            final(self)@.left == old(self)@.left - old(self)@.frontier.take(n as int).to_set(),
            final(self)@.opened == old(self)@.opened,
            old(self)@.sound() ==> final(self)@.sound(),
    {
        let len = self.stack.len();
        let mut n: usize = 0;
        while n < len
            invariant
                n <= len,
                len == self.stack.len(),
                *self == *old(self),
                self.wf(),
                forall|i: int|
                    0 <= i < n ==> self@.score_at(#[trigger] self.stack@[i]) == Score::Mine,
            ensures
                n <= len,
                forall|i: int|
                    0 <= i < n ==> self@.score_at(#[trigger] self.stack@[i]) == Score::Mine,
                n < len ==> self@.score_at(self.stack@[n as int]) != Score::Mine,
            decreases len - n,
        {
            let c = self.stack[n];
            assert(self@.on_board(self.stack@[n as int]));
            if !self.m[c.0][c.1].score.is_mine() {
                break;
            }
            n += 1;
        }
        let mut k: usize = 0;
        proof {
            lemma_mark_each(old(self)@, 0);
            assert(old(self)@.frontier.take(0).len() == 0);
        }
        while k < n
            invariant
                k <= n,
                n <= old(self)@.frontier.len(),
                old(self).wf(),
                self.shaped(),
                self@ == old(self)@.mark_each(old(self)@.frontier.take(k as int)),
            decreases n - k,
        {
            proof {
                lemma_mark_each(old(self)@, k as int);
                let run = old(self)@.frontier.take(k + 1);
                assert(run.drop_last() == old(self)@.frontier.take(k as int));
                assert(run.last() == old(self)@.frontier[k as int]);
                assert(self.stack@[k as int] == old(self)@.frontier[k as int]);
                assert(self@.on_board(self.stack@[k as int]));
            }
            let c = self.stack[k];
            self.mark_core(c);
            k += 1;
        }
        proof {
            lemma_mark_each(old(self)@, n as int);
        }
        let rest = self.stack.split_off(n);
        self.stack = rest;
        proof {
            lemma_mark_obvious(old(self)@, n as int);
            let m = old(self)@.mark_each(old(self)@.frontier.take(n as int));
            let d = State { frontier: m.frontier.skip(n as int), ..m };
            assert(self@.cells =~= d.cells);
            assert(self@ == d);
            crate::moves::lemma_skipped_run_valid(old(self)@, n as int);
            if old(self)@.sound() {
                crate::trust::lemma_mark_obvious_sound(old(self)@, n as int);
            }
        }
        self.sort();
        n
    }
}

} // verus!
