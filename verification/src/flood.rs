//! Opening a position: the region that floods open from it, and the
//! refresh of the scores around that region.

use crate::cell::{Content, Coord};
use crate::frontier::lemma_sorted;
use crate::model::{lemma_propagate, State};
use crate::seqs::{lemma_filter_members, lemma_filter_no_duplicates};
use vstd::prelude::*;

verus! {

/// The test for the positions that are not in `region`.
pub open spec fn not_in(region: Set<Coord>) -> spec_fn(Coord) -> bool {
    |d: Coord| !region.contains(d)
}

impl State {
    /// Whether flooding may open `d`: it is a covered position of the board
    /// that hides no mine.
    pub open spec fn floodable(self, d: Coord) -> bool {
        &&& self.on_board(d)
        &&& self.cells[d].content != Content::Mine
        &&& self.covered(d)
    }

    /// Whether the cell at `d` has no mine around it.
    pub open spec fn is_blank(self, d: Coord) -> bool {
        self.cells[d].content == Content::Empty(0)
    }

    /// Whether `p` is a way for the flood out of `from`: it starts there,
    /// each step goes from a cell with no mine around it to a neighbour
    /// that flooding may open.
    pub open spec fn flood_path(self, from: Coord, p: Seq<Coord>) -> bool {
        &&& p.len() > 0
        &&& p[0] == from
        &&& forall|i: int|
            0 < i < p.len() ==> {
                &&& self.floodable(#[trigger] p[i])
                &&& self.is_blank(p[i - 1])
                &&& self.around(p[i - 1]).contains(p[i])
            }
    }

    /// Whether the flood out of `from` reaches `d`.
    pub open spec fn flooded(self, from: Coord, d: Coord) -> bool {
        exists|p: Seq<Coord>| #[trigger] self.flood_path(from, p) && p.last() == d
    }

    /// The positions that opening `from` opens: `from` itself and, where
    /// there is no mine around it, its covered neighbours, and so on through
    /// every cell with no mine around it, up to and including the cells that
    /// border them.
    pub open spec fn region(self, from: Coord) -> Set<Coord> {
        Set::new(|d: Coord| self.flooded(from, d))
    }

    /// The state after the positions of `region` have been opened: they
    /// leave the positions left and the frontier.
    pub open spec fn uncover(self, region: Set<Coord>) -> State {
        State {
            opened: self.opened + region,
            left: self.left - region,
            stacked: self.stacked - region,
            frontier: self.frontier.filter(not_in(region)),
            ..self
        }
    }

    /// Whether some neighbour of `k` is in `region`.
    pub open spec fn near(self, region: Set<Coord>, k: Coord) -> bool {
        exists|t: int| 0 <= t < self.around(k).len() && region.contains(#[trigger] self.around(k)[t])
    }

    /// Whether the opening of `region` changes what the opened cell at `k`
    /// has to say: `k` is opened, and is in the region or next to it.
    pub open spec fn stirred(self, region: Set<Coord>, k: Coord) -> bool {
        self.opened.contains(k) && (region.contains(k) || self.near(region, k))
    }

    /// Score propagation from the stirred positions, row by row and within
    /// a row from the first column on, over the first `i` rows and the
    /// first `j` positions of row `i`.
    pub open spec fn refresh_cells(self, region: Set<Coord>, i: int, j: int) -> State
        decreases i, j,
    {
        if j > 0 {
            let s = self.refresh_cells(region, i, j - 1);
            let k = (i as usize, (j - 1) as usize);
            if s.stirred(region, k) {
                s.propagate(k)
            } else {
                s
            }
        } else if i > 0 {
            self.refresh_cells(region, i - 1, self.w as int)
        } else {
            self
        }
    }

    /// Score propagation from every stirred position of the board.
    pub open spec fn refresh(self, region: Set<Coord>) -> State {
        self.refresh_cells(region, self.h as int, 0)
    }

    /// The state after `c` has been opened: its region is revealed, the
    /// stirred cells refresh their contributions, and the frontier is
    /// ranked.
    pub open spec fn open(self, c: Coord) -> State {
        let region = self.region(c);
        self.uncover(region).refresh(region).sorted()
    }

    /// Whether `c` can be opened: it is a covered position of the board.
    pub open spec fn can_open(self, c: Coord) -> bool {
        self.on_board(c) && self.covered(c)
    }
}

/// The flood out of a position reaches that position.
pub proof fn lemma_region_start(s: State, from: Coord)
    ensures
        s.region(from).contains(from),
{
    let p = seq![from];
    assert(s.flood_path(from, p) && p.last() == from);
}

/// The flood goes on from a reached cell with no mine around it to each
/// neighbour that it may open.
pub proof fn lemma_region_step(s: State, from: Coord, d: Coord, n: Coord)
    requires
        s.region(from).contains(d),
        s.is_blank(d),
        s.around(d).contains(n),
        s.floodable(n),
    ensures
        s.region(from).contains(n),
{
    let p = choose|p: Seq<Coord>| #[trigger] s.flood_path(from, p) && p.last() == d;
    let q = p.push(n);
    assert forall|i: int| 0 < i < q.len() implies {
        &&& s.floodable(#[trigger] q[i])
        &&& s.is_blank(q[i - 1])
        &&& s.around(q[i - 1]).contains(q[i])
    } by {
        if i < p.len() {
            assert(q[i] == p[i] && q[i - 1] == p[i - 1]);
        } else {
            assert(q[i - 1] == p.last());
        }
    }
    assert(s.flood_path(from, q) && q.last() == n);
}

/// Every position that the flood reaches, but for the start, is one that
/// flooding may open.
pub proof fn lemma_region_members(s: State, from: Coord, d: Coord)
    requires
        s.region(from).contains(d),
    ensures
        d == from || s.floodable(d),
{
    let p = choose|p: Seq<Coord>| #[trigger] s.flood_path(from, p) && p.last() == d;
    if p.len() > 1 {
        assert(s.floodable(p[p.len() - 1]));
    }
}

/// Whether `f` is closed under the flood: with a cell that has no mine
/// around it, it holds each neighbour that flooding may open.
pub open spec fn flood_closed(s: State, f: Set<Coord>) -> bool {
    forall|d: Coord, t: int|
        f.contains(d) && s.is_blank(d) && 0 <= t < s.around(d).len() && s.floodable(
            #[trigger] s.around(d)[t],
        ) ==> f.contains(s.around(d)[t])
}

/// A set that holds the start and is closed under the flood holds the end
/// of every way for the flood.
pub proof fn lemma_closed_holds_path(s: State, from: Coord, f: Set<Coord>, p: Seq<Coord>)
    requires
        f.contains(from),
        flood_closed(s, f),
        s.flood_path(from, p),
    ensures
        f.contains(p.last()),
    decreases p.len(),
{
    if p.len() > 1 {
        let q = p.drop_last();
        assert forall|i: int| 0 < i < q.len() implies {
            &&& s.floodable(#[trigger] q[i])
            &&& s.is_blank(q[i - 1])
            &&& s.around(q[i - 1]).contains(q[i])
        } by {
            assert(q[i] == p[i] && q[i - 1] == p[i - 1]);
        }
        assert(s.flood_path(from, q));
        lemma_closed_holds_path(s, from, f, q);
        let last = p.len() - 1;
        assert(s.floodable(p[last]));
        assert(q.last() == p[last - 1]);
        let d = p[last - 1];
        let t = choose|t: int| 0 <= t < s.around(d).len() && s.around(d)[t] == p[last];
        assert(s.floodable(s.around(d)[t]));
    }
}

/// A set of reached positions that holds the start and is closed under the
/// flood is the region.
pub proof fn lemma_closed_is_region(s: State, from: Coord, f: Set<Coord>)
    requires
        f.contains(from),
        flood_closed(s, f),
        forall|d: Coord| f.contains(d) ==> #[trigger] s.region(from).contains(d),
    ensures
        f == s.region(from),
{
    assert forall|d: Coord| s.region(from).contains(d) implies f.contains(d) by {
        let p = choose|p: Seq<Coord>| #[trigger] s.flood_path(from, p) && p.last() == d;
        lemma_closed_holds_path(s, from, f, p);
    }
    assert(f =~= s.region(from));
}

/// Revealing the region of a position that can be opened and hides no mine
/// keeps a state valid. No mine is opened, no flag is touched, and every
/// position that was accounted for still is, as is the one that was opened.
pub proof fn lemma_uncover(s: State, c: Coord)
    requires
        s.valid(),
        s.can_open(c),
        s.cells[c].content != Content::Mine,
    ensures
        s.uncover(s.region(c)).valid(),
        s.in_order() ==> s.uncover(s.region(c)).in_order(),
        forall|d: Coord| s.region(c).contains(d) ==> #[trigger] s.floodable(d),
        forall|e: Coord|
            s.accounted().contains(e) || e == c ==> #[trigger] s.uncover(
                s.region(c),
            ).accounted().contains(e),
{
    let r = s.region(c);
    let t = s.uncover(r);
    assert forall|d: Coord| r.contains(d) implies #[trigger] s.floodable(d) by {
        lemma_region_members(s, c, d);
    }
    lemma_filter_members(s.frontier, not_in(r));
    lemma_filter_no_duplicates(s.frontier, not_in(r));
    assert forall|e: Coord| #[trigger] t.stacked.contains(e) implies t.frontier.contains(e)
        && !t.marked.contains(e) by {
        assert(s.stacked.contains(e));
    }
    assert forall|i: int| 0 <= i < t.frontier.len() implies {
        let e = #[trigger] t.frontier[i];
        &&& t.on_board(e)
        &&& !t.opened.contains(e)
        &&& t.stacked.contains(e)
    } by {
        let e = t.frontier[i];
        assert(t.frontier.contains(e));
        assert(s.frontier.contains(e));
        let k = choose|k: int| 0 <= k < s.frontier.len() && s.frontier[k] == e;
        assert(s.stacked.contains(s.frontier[k]));
    }
    assert forall|e: Coord| #[trigger] t.opened.contains(e) implies t.on_board(e)
        && t.cells[e].content != Content::Mine && !t.marked.contains(e) && !t.left.contains(e) by {
        if r.contains(e) {
            assert(s.floodable(e));
        }
    }
    lemma_region_start(s, c);
    assert forall|e: Coord| s.accounted().contains(e) || e == c implies #[trigger] t.accounted().contains(
        e,
    ) by {
        if !r.contains(e) && s.frontier.contains(e) {
            assert(t.frontier.contains(e));
        }
    }
    if s.in_order() {
        crate::frontier::lemma_filter_descending(s.frontier, s.rank_key(), not_in(r));
        assert(t.rank_key() == s.rank_key());
    }
}

/// Refreshing keeps a state coherent, and valid if it was; only notes,
/// frontier and stacking change, and the frontier keeps what it held.
pub proof fn lemma_refresh_cells(s: State, region: Set<Coord>, i: int, j: int)
    requires
        s.coherent(),
        0 <= i,
        0 <= j,
    ensures
        s.refresh_cells(region, i, j).coherent(),
        s.valid() ==> s.refresh_cells(region, i, j).valid(),
        s.same_ground(s.refresh_cells(region, i, j)),
        s.extends_to(s.refresh_cells(region, i, j)),
    decreases i, j,
{
    if j > 0 {
        lemma_refresh_cells(s, region, i, j - 1);
        let p = s.refresh_cells(region, i, j - 1);
        let k = (i as usize, (j - 1) as usize);
        if p.stirred(region, k) {
            lemma_propagate(p, k);
        }
    } else if i > 0 {
        lemma_refresh_cells(s, region, i - 1, s.w as int);
    }
}

/// Opening a covered position that hides no mine keeps a state valid and
/// leaves the frontier in order. Exactly the region of the position is
/// opened, and it holds no mine; the flags stay; the cells keep their
/// content; whatever was accounted for still is, and so is the position.
pub proof fn lemma_open(s: State, c: Coord)
    requires
        s.valid(),
        s.can_open(c),
        s.cells[c].content != Content::Mine,
    ensures
        s.open(c).valid(),
        s.open(c).in_order(),
        s.open(c).h == s.h,
        s.open(c).w == s.w,
        s.open(c).opened == s.opened + s.region(c),
        s.open(c).marked == s.marked,
        s.open(c).left == s.left - s.region(c),
        s.open(c).cells.dom() == s.cells.dom(),
        forall|d: Coord| (#[trigger] s.open(c).cells[d]).content == s.cells[d].content,
        s.region(c).contains(c),
        forall|d: Coord| #[trigger] s.region(c).contains(d) ==> s.cells[d].content != Content::Mine,
        forall|e: Coord|
            s.accounted().contains(e) || e == c ==> #[trigger] s.open(c).accounted().contains(e),
{
    let r = s.region(c);
    let a = s.uncover(r);
    lemma_uncover(s, c);
    lemma_region_start(s, c);
    lemma_refresh_cells(a, r, a.h as int, 0);
    let b = a.refresh(r);
    lemma_sorted(b);
    let t = s.open(c);
    assert(t == b.sorted());
    assert forall|d: Coord| (#[trigger] t.cells[d]).content == s.cells[d].content by {
        assert(a.cells[d].content == b.cells[d].content);
    }
    assert forall|d: Coord| #[trigger] r.contains(d) implies s.cells[d].content
        != Content::Mine by {
        assert(s.floodable(d));
    }
    assert forall|e: Coord| s.accounted().contains(e) || e == c implies #[trigger] t.accounted().contains(
        e,
    ) by {
        assert(a.accounted().contains(e));
        if a.frontier.contains(e) {
            let k = choose|k: int| 0 <= k < a.frontier.len() && a.frontier[k] == e;
            assert(b.frontier[k] == e);
            assert(b.frontier.to_set().contains(e));
            assert(t.frontier.to_set().contains(e));
        }
    }
}

} // verus!
