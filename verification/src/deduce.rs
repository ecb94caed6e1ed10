//! Why the two certain verdicts can be trusted: on a board whose counts
//! are true and whose flags stand on mines, a cell that says "certainly a
//! mine" or "certainly safe" is right about each covered neighbour.

use crate::cell::{aggregate, has_zero, notes_ok, running_sum, Content, Coord, Note, CERTAIN};
use crate::grid::lemma_neighbour_seq;
use crate::model::{lemma_covered_around, risk, State};
use crate::score::Score;
use crate::seqs::{lemma_filter_agree, lemma_filter_empty, lemma_filter_full, lemma_filter_members};
use crate::seqs::lemma_filter_split;
use vstd::prelude::*;

verus! {

/// Whether a contribution is one that a cell with at most eight neighbours
/// can give: one of the two certain verdicts, or a risk from 12 to 100.
pub open spec fn plausible(value: int) -> bool {
    value == 0 || value == CERTAIN || 12 <= value <= 100
}

/// The risk that a cell with at most eight covered neighbours assigns is
/// plausible.
pub proof fn lemma_risk_plausible(covered: int, remaining: int)
    requires
        0 <= covered <= 8,
        0 <= remaining,
    ensures
        plausible(risk(covered, remaining)),
        risk(covered, remaining) == CERTAIN <==> covered <= remaining,
        risk(covered, remaining) == 0 <==> (covered > remaining && remaining == 0),
{
    if covered > remaining && remaining > 0 {
        let q = 100int / covered;
        assert(12 <= q <= 50) by {
            if covered == 2 {
            } else if covered == 3 {
            } else if covered == 4 {
            } else if covered == 5 {
            } else if covered == 6 {
            } else if covered == 7 {
            } else {
                assert(covered == 8);
            }
        }
        assert(12 <= q * remaining <= 100) by (nonlinear_arith)
            requires
                q == 100int / covered,
                0 < remaining < covered,
                12 <= q,
        ;
    }
}

/// Among plausible contributions that are neither zero nor certain, the sum
/// is at least twelve times and at most a hundred times their number.
pub proof fn lemma_sum_of_risks(notes: Seq<Note>)
    requires
        forall|i: int| 0 <= i < notes.len() ==> 12 <= (#[trigger] notes[i]).1 <= 100,
        notes.len() <= 8,
    ensures
        12 * notes.len() <= running_sum(notes) <= 100 * notes.len(),
    decreases notes.len(),
{
    if notes.len() > 0 {
        let front = notes.drop_last();
        assert forall|i: int| 0 <= i < front.len() implies 12 <= (#[trigger] front[i]).1
            <= 100 by {
            assert(front[i] == notes[i]);
        }
        lemma_sum_of_risks(front);
        assert(12 <= notes[notes.len() - 1].1 <= 100);
    }
}

/// Where at most eight plausible contributions add up to the score `Mine`,
/// one of them is the certain verdict and none is zero.
pub proof fn lemma_mine_score(notes: Seq<Note>)
    requires
        notes.len() <= 8,
        forall|i: int| 0 <= i < notes.len() ==> plausible((#[trigger] notes[i]).1 as int),
        aggregate(notes) == Score::Mine,
    ensures
        exists|i: int| 0 <= i < notes.len() && (#[trigger] notes[i]).1 == CERTAIN,
        !has_zero(notes),
{
    if !exists|i: int| 0 <= i < notes.len() && (#[trigger] notes[i]).1 == CERTAIN {
        assert forall|i: int| 0 <= i < notes.len() implies 12 <= (#[trigger] notes[i]).1
            <= 100 by {
            assert(plausible(notes[i].1 as int));
        }
        lemma_sum_of_risks(notes);
    }
}

/// Where at most eight plausible contributions add up to the score
/// `Val(0)`, one of them is zero.
pub proof fn lemma_safe_score(notes: Seq<Note>)
    requires
        notes_ok(notes),
        forall|i: int| 0 <= i < notes.len() ==> plausible((#[trigger] notes[i]).1 as int),
        aggregate(notes) == Score::Val(0),
    ensures
        has_zero(notes),
{
    if !has_zero(notes) {
        lemma_sum_floor(notes);
        crate::cell::lemma_running_sum_bounds(notes);
        let n = notes.len() as int;
        let sum = running_sum(notes);
        assert(12 <= sum / n <= 1000) by (nonlinear_arith)
            requires
                12 * n <= sum <= 1000 * n,
                n > 0,
        ;
    }
}

/// Where no plausible contribution is zero, the sum is pinned at the
/// certain verdict or at least twelve times their number.
pub proof fn lemma_sum_floor(notes: Seq<Note>)
    requires
        forall|i: int| 0 <= i < notes.len() ==> plausible((#[trigger] notes[i]).1 as int),
        !has_zero(notes),
    ensures
        running_sum(notes) == CERTAIN || running_sum(notes) >= 12 * notes.len(),
    decreases notes.len(),
{
    if notes.len() > 0 {
        let front = notes.drop_last();
        assert forall|i: int| 0 <= i < front.len() implies plausible(
            (#[trigger] front[i]).1 as int,
        ) by {
            assert(front[i] == notes[i]);
        }
        assert(!has_zero(front)) by {
            if has_zero(front) {
                let i = choose|i: int| 0 <= i < front.len() && (#[trigger] front[i]).1 == 0;
                assert(notes[i].1 == 0);
            }
        }
        lemma_sum_floor(front);
        let last = notes[notes.len() - 1];
        assert(plausible(last.1 as int));
        assert(last.1 != 0);
    }
}

impl State {
    /// The test for a position that hides a mine.
    pub open spec fn is_mined(self) -> spec_fn(Coord) -> bool {
        |c: Coord| self.cells[c].content == Content::Mine
    }

    /// The neighbours of `c` that hide a mine.
    pub open spec fn mined_around(self, c: Coord) -> Seq<Coord> {
        self.around(c).filter(self.is_mined())
    }

    /// Whether every empty cell of the board counts the mines around it
    /// truly.
    pub open spec fn true_counts(self) -> bool {
        forall|c: Coord|
            self.on_board(c) ==> match (#[trigger] self.cells[c]).content {
                Content::Empty(n) => n == self.mined_around(c).len(),
                Content::Mine => true,
            }
    }

    /// Whether every flag stands on a mine.
    pub open spec fn flags_true(self) -> bool {
        forall|c: Coord| #[trigger] self.marked.contains(c) ==> self.cells[c].content == Content::Mine
    }
}

/// Around an opened cell of a board with true counts and true flags, the
/// covered neighbours hide as many mines as the cell's count leaves when
/// the flags are taken off.
pub proof fn lemma_remaining_is_hidden(s: State, k: Coord)
    requires
        s.coherent(),
        s.true_counts(),
        s.flags_true(),
        s.opened.contains(k),
    ensures
        s.remaining(k) == s.covered_around(k).filter(s.is_mined()).len(),
{
    let all = s.around(k);
    lemma_neighbour_seq(s.h, s.w, k);
    let mined = s.is_mined();
    let flagged = s.is_flagged();
    let covered = s.is_covered();
    let opened = s.is_opened();
    assert forall|i: int| 0 <= i < all.len() && mined(#[trigger] all[i]) implies (flagged(all[i])
        && !covered(all[i]) && !opened(all[i])) || (!flagged(all[i]) && covered(all[i]) && !opened(
        all[i],
    )) || (!flagged(all[i]) && !covered(all[i]) && opened(all[i])) by {}
    lemma_filter_split(all, mined, flagged, covered, opened);
    let mf = |x: Coord| mined(x) && flagged(x);
    let mc = |x: Coord| mined(x) && covered(x);
    let mo = |x: Coord| mined(x) && opened(x);
    assert(all.filter(mo).len() == 0) by {
        lemma_filter_members(all, mo);
        if all.filter(mo).len() > 0 {
            let x = all.filter(mo)[0];
            assert(all.filter(mo).contains(x));
            assert(s.opened.contains(x));
        }
    }
    assert(all.filter(mf) == all.filter(flagged)) by {
        assert forall|i: int| 0 <= i < all.len() implies mf(#[trigger] all[i]) == flagged(
            all[i],
        ) by {
            if flagged(all[i]) {
                assert(s.marked.contains(all[i]));
            }
        }
        lemma_filter_agree(all, mf, flagged);
    }
    assert(all.filter(mc) == all.filter(covered).filter(mined)) by {
        lemma_filter_twice(all, covered, mined);
        assert forall|i: int| 0 <= i < all.len() implies mc(#[trigger] all[i]) == (covered(all[i])
            && mined(all[i])) by {}
        lemma_filter_agree(all, mc, |x: Coord| covered(x) && mined(x));
    }
    assert(s.cells.dom().contains(k));
    assert(s.cells[k].content != Content::Mine);
    lemma_filter_members(all, mined);
}

/// Filtering twice is filtering once by both tests.
pub proof fn lemma_filter_twice<A>(s: Seq<A>, p: spec_fn(A) -> bool, q: spec_fn(A) -> bool)
    ensures
        s.filter(p).filter(q) == s.filter(|x: A| p(x) && q(x)),
    decreases s.len(),
{
    reveal(Seq::filter);
    if s.len() > 0 {
        let front = s.drop_last();
        lemma_filter_twice(front, p, q);
        if p(s.last()) {
            let f = front.filter(p);
            assert(f.push(s.last()).drop_last() == f);
            assert(f.push(s.last()).last() == s.last());
        }
    }
}

/// An opened cell whose verdict is "certainly a mine" is right: each of its
/// covered neighbours hides a mine.
pub proof fn lemma_certain_mine(s: State, k: Coord, d: Coord)
    requires
        s.coherent(),
        s.true_counts(),
        s.flags_true(),
        s.opened.contains(k),
        s.verdict(k) == CERTAIN,
        s.covered_around(k).contains(d),
    ensures
        s.cells[d].content == Content::Mine,
{
    lemma_covered_around(s, k);
    lemma_remaining_is_hidden(s, k);
    let cov = s.covered_around(k);
    lemma_risk_plausible(cov.len() as int, s.remaining(k));
    lemma_filter_members(cov, s.is_mined());
    lemma_filter_full(cov, s.is_mined());
    let i = choose|i: int| 0 <= i < cov.len() && cov[i] == d;
    assert((s.is_mined())(cov[i]));
}

/// An opened cell whose verdict is "certainly safe" is right: none of its
/// covered neighbours hides a mine.
pub proof fn lemma_certain_safe(s: State, k: Coord, d: Coord)
    requires
        s.coherent(),
        s.true_counts(),
        s.flags_true(),
        s.opened.contains(k),
        s.verdict(k) == 0,
        s.covered_around(k).contains(d),
    ensures
        s.cells[d].content != Content::Mine,
{
    lemma_covered_around(s, k);
    lemma_remaining_is_hidden(s, k);
    let cov = s.covered_around(k);
    lemma_risk_plausible(cov.len() as int, s.remaining(k));
    lemma_filter_empty(cov, s.is_mined());
    let i = choose|i: int| 0 <= i < cov.len() && cov[i] == d;
    assert(!(s.is_mined())(cov[i]));
}

} // verus!
