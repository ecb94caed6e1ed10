//! The solver's state as mathematics: cells, the three sets that divide
//! the board, and the frontier, with the steps of score propagation.

use crate::cell::{aggregate, notes_ok, with_note, Content, Coord, Note, CERTAIN};
use crate::cell::lemma_with_note_ok;
use crate::grid::{in_grid, lemma_neighbour_seq, neighbour_seq};
use crate::score::Score;
use crate::seqs::{lemma_filter_members, lemma_filter_no_duplicates};
use vstd::prelude::*;

verus! {

/// A cell without its cached score.
#[verifier::ext_equal]
pub struct CellView {
    pub content: Content,
    pub notes: Seq<Note>,
}

impl CellView {
    /// The score that the notes add up to.
    pub open spec fn score(self) -> Score {
        aggregate(self.notes)
    }
}

/// The state of one game.
#[verifier::ext_equal]
pub struct State {
    /// Rows of the board.
    pub h: usize,
    /// Columns of the board.
    pub w: usize,
    /// The cell at each position of the board.
    pub cells: Map<Coord, CellView>,
    /// Positions that have been revealed.
    pub opened: Set<Coord>,
    /// Positions that are neither revealed nor flagged nor taken in hand.
    pub left: Set<Coord>,
    /// Positions flagged as mines.
    pub marked: Set<Coord>,
    /// The pending positions; the last one is the next to be taken.
    pub frontier: Seq<Coord>,
    /// The positions known to be pending.
    pub stacked: Set<Coord>,
}

/// The risk that an opened cell assigns to each covered neighbour, given how
/// many of them there are and how many mines are still unflagged around it:
/// 1000 when every covered neighbour must be a mine, 0 when none can be,
/// else a rough percentage, the quotient taken before the product.
pub open spec fn risk(covered: int, remaining: int) -> int {
    if covered <= remaining {
        CERTAIN as int
    } else if remaining == 0 {
        0
    } else {
        (100int / covered) * remaining
    }
}

/// A risk is a contribution in range.
pub proof fn lemma_risk_range(covered: int, remaining: int)
    requires
        0 <= covered,
        0 <= remaining,
    ensures
        0 <= risk(covered, remaining) <= CERTAIN,
        covered > remaining > 0 ==> risk(covered, remaining) <= 100,
{
    if covered > remaining && remaining > 0 {
        let q = 100int / covered;
        assert(0 <= q * remaining <= 100) by (nonlinear_arith)
            requires
                q == 100int / covered,
                0 < remaining < covered,
        ;
    }
}

impl State {
    /// Whether `c` is a position of the board.
    pub open spec fn on_board(self, c: Coord) -> bool {
        in_grid(self.h, self.w, c)
    }

    /// Whether `c` is neither opened nor flagged.
    pub open spec fn covered(self, c: Coord) -> bool {
        !self.opened.contains(c) && !self.marked.contains(c)
    }

    /// The test for a flagged position.
    pub open spec fn is_flagged(self) -> spec_fn(Coord) -> bool {
        |d: Coord| self.marked.contains(d)
    }

    /// The test for a covered position.
    pub open spec fn is_covered(self) -> spec_fn(Coord) -> bool {
        |d: Coord| self.covered(d)
    }

    /// The test for an opened position.
    pub open spec fn is_opened(self) -> spec_fn(Coord) -> bool {
        |d: Coord| self.opened.contains(d)
    }

    /// The neighbours of `c`, in their fixed order.
    pub open spec fn around(self, c: Coord) -> Seq<Coord> {
        neighbour_seq(self.h, self.w, c)
    }

    /// The flagged neighbours of `c`.
    pub open spec fn flagged_around(self, c: Coord) -> Seq<Coord> {
        self.around(c).filter(self.is_flagged())
    }

    /// The covered neighbours of `c`.
    pub open spec fn covered_around(self, c: Coord) -> Seq<Coord> {
        self.around(c).filter(self.is_covered())
    }

    /// The opened neighbours of `c`.
    pub open spec fn opened_around(self, c: Coord) -> Seq<Coord> {
        self.around(c).filter(self.is_opened())
    }

    /// The mines around `c` that no flag accounts for. A mine cell counts
    /// none, and so does a cell with more flags around it than mines.
    pub open spec fn remaining(self, c: Coord) -> int {
        match self.cells[c].content {
            Content::Empty(n) => if n > self.flagged_around(c).len() {
                n - self.flagged_around(c).len()
            } else {
                0
            },
            Content::Mine => 0,
        }
    }

    /// What `c` has to say about each of its covered neighbours.
    pub open spec fn verdict(self, c: Coord) -> int {
        risk(self.covered_around(c).len() as int, self.remaining(c))
    }

    /// The score of the cell at `c`.
    pub open spec fn score_at(self, c: Coord) -> Score {
        self.cells[c].score()
    }

    /// The state after `author` has written `value` into the cell at `d`:
    /// the note is recorded, and `d` joins the frontier unless it is known
    /// to be there.
    pub open spec fn note(self, d: Coord, author: Coord, value: i32) -> State {
        State {
            cells: self.cells.insert(
                d,
                CellView {
                    content: self.cells[d].content,
                    notes: with_note(self.cells[d].notes, author, value),
                },
            ),
            frontier: if self.stacked.contains(d) {
                self.frontier
            } else {
                self.frontier.push(d)
            },
            stacked: self.stacked.insert(d),
            ..self
        }
    }

    /// The state after `author` has written `value` into each of `targets`,
    /// one after the other.
    pub open spec fn deliver(self, author: Coord, value: i32, targets: Seq<Coord>) -> State
        decreases targets.len(),
    {
        if targets.len() == 0 {
            self
        } else {
            self.deliver(author, value, targets.drop_last()).note(targets.last(), author, value)
        }
    }

    /// Score propagation from `c`: its verdict goes to each of its covered
    /// neighbours.
    pub open spec fn propagate(self, c: Coord) -> State {
        self.deliver(c, self.verdict(c) as i32, self.covered_around(c))
    }

    /// Score propagation from each of `sources`, one after the other.
    pub open spec fn propagate_all(self, sources: Seq<Coord>) -> State
        decreases sources.len(),
    {
        if sources.len() == 0 {
            self
        } else {
            self.propagate_all(sources.drop_last()).propagate(sources.last())
        }
    }

    /// What holds of a state at every moment, also in the middle of a batch
    /// of flags: the board has a cell at each position, every cell's notes
    /// are in order, opened, flagged and left are disjoint, no mine is
    /// opened, and the frontier lists each position once, none of them
    /// opened, the stacked ones and otherwise only flagged ones.
    pub open spec fn coherent(self) -> bool {
        &&& forall|c: Coord| #[trigger] self.cells.dom().contains(c) <==> self.on_board(c)
        &&& forall|c: Coord| #[trigger]
            self.cells.dom().contains(c) ==> notes_ok(self.cells[c].notes)
        &&& forall|c: Coord| #[trigger]
            self.opened.contains(c) ==> self.on_board(c) && self.cells[c].content
                != Content::Mine && !self.marked.contains(c) && !self.left.contains(c)
        &&& forall|c: Coord| #[trigger]
            self.marked.contains(c) ==> self.on_board(c) && !self.left.contains(c)
        &&& forall|c: Coord| #[trigger] self.left.contains(c) ==> self.on_board(c)
        &&& forall|c: Coord| #[trigger]
            self.stacked.contains(c) ==> self.frontier.contains(c) && !self.marked.contains(c)
        &&& self.frontier.no_duplicates()
        &&& forall|i: int|
            0 <= i < self.frontier.len() ==> {
                let c = #[trigger] self.frontier[i];
                &&& self.on_board(c)
                &&& !self.opened.contains(c)
                &&& self.stacked.contains(c) || self.marked.contains(c)
            }
    }

    /// What holds of a state between operations: it is coherent, and the
    /// frontier holds exactly the stacked positions, so none that is opened
    /// or flagged.
    pub open spec fn valid(self) -> bool {
        &&& self.coherent()
        &&& forall|i: int|
            0 <= i < self.frontier.len() ==> self.stacked.contains(#[trigger] self.frontier[i])
    }

    /// Whether two states differ at most in notes, frontier and stacking.
    pub open spec fn same_ground(self, other: State) -> bool {
        &&& self.h == other.h
        &&& self.w == other.w
        &&& self.opened == other.opened
        &&& self.left == other.left
        &&& self.marked == other.marked
        &&& self.cells.dom() == other.cells.dom()
        &&& forall|c: Coord|
            #![trigger self.cells[c]]
            #![trigger other.cells[c]]
            self.cells[c].content == other.cells[c].content
    }

    /// Whether `other` has the frontier of `self` and possibly more behind
    /// it: every stacked position is still stacked, and every position that
    /// came behind is stacked.
    pub open spec fn extends_to(self, other: State) -> bool {
        &&& self.frontier.len() <= other.frontier.len()
        &&& forall|i: int|
            0 <= i < self.frontier.len() ==> #[trigger] other.frontier[i] == self.frontier[i]
        &&& forall|c: Coord| self.stacked.contains(c) ==> #[trigger] other.stacked.contains(c)
        &&& forall|i: int|
            self.frontier.len() <= i < other.frontier.len() ==> other.stacked.contains(
                #[trigger] other.frontier[i],
            )
    }
}

/// Writing an in-range note into a covered cell of the board keeps the state
/// coherent, and valid if it was; only notes, frontier and stacking change.
pub proof fn lemma_note(s: State, d: Coord, author: Coord, value: i32)
    requires
        s.coherent(),
        s.on_board(d),
        s.covered(d),
        0 <= value <= CERTAIN,
    ensures
        s.note(d, author, value).coherent(),
        s.valid() ==> s.note(d, author, value).valid(),
        s.same_ground(s.note(d, author, value)),
        s.extends_to(s.note(d, author, value)),
{
    let t = s.note(d, author, value);
    assert(s.cells.dom().contains(d));
    lemma_with_note_ok(s.cells[d].notes, author, value);
    assert(t.cells.dom() =~= s.cells.dom());
    if !s.stacked.contains(d) {
        assert(!s.frontier.contains(d)) by {
            if s.frontier.contains(d) {
                let i = choose|i: int| 0 <= i < s.frontier.len() && s.frontier[i] == d;
                assert(s.stacked.contains(s.frontier[i]) || s.marked.contains(s.frontier[i]));
            }
        }
        assert(t.frontier.no_duplicates()) by {
            assert forall|a: int, b: int|
                0 <= a < t.frontier.len() && 0 <= b < t.frontier.len() && a != b implies t.frontier[a]
                != t.frontier[b] by {
                if a < s.frontier.len() {
                    assert(s.frontier.contains(s.frontier[a]));
                }
                if b < s.frontier.len() {
                    assert(s.frontier.contains(s.frontier[b]));
                }
            }
        }
        assert(t.frontier[s.frontier.len() as int] == d);
    }
    assert forall|c: Coord| #[trigger] t.stacked.contains(c) implies t.frontier.contains(c)
        && !t.marked.contains(c) by {
        if c == d {
            if s.stacked.contains(d) {
                assert(s.frontier.contains(d));
            } else {
                assert(t.frontier[s.frontier.len() as int] == d);
            }
        } else {
            assert(s.stacked.contains(c));
            let i = choose|i: int| 0 <= i < s.frontier.len() && s.frontier[i] == c;
            assert(t.frontier[i] == c);
        }
    }
    assert forall|i: int| 0 <= i < t.frontier.len() implies {
        let c = #[trigger] t.frontier[i];
        &&& t.on_board(c)
        &&& !t.opened.contains(c)
        &&& t.stacked.contains(c) || t.marked.contains(c)
    } by {
        if i < s.frontier.len() {
            assert(t.frontier[i] == s.frontier[i]);
        }
    }
    if s.valid() {
        assert forall|i: int| 0 <= i < t.frontier.len() implies t.stacked.contains(
            #[trigger] t.frontier[i],
        ) by {
            if i < s.frontier.len() {
                assert(t.frontier[i] == s.frontier[i]);
            }
        }
    }
}

/// Delivering an in-range value to covered cells of the board keeps the
/// state coherent, and valid if it was.
pub proof fn lemma_deliver(s: State, author: Coord, value: i32, targets: Seq<Coord>)
    requires
        s.coherent(),
        0 <= value <= CERTAIN,
        forall|i: int|
            0 <= i < targets.len() ==> s.on_board(#[trigger] targets[i]) && s.covered(targets[i]),
    ensures
        s.deliver(author, value, targets).coherent(),
        s.valid() ==> s.deliver(author, value, targets).valid(),
        s.same_ground(s.deliver(author, value, targets)),
        s.extends_to(s.deliver(author, value, targets)),
    decreases targets.len(),
{
    if targets.len() > 0 {
        let front = targets.drop_last();
        assert forall|i: int| 0 <= i < front.len() implies s.on_board(#[trigger] front[i])
            && s.covered(front[i]) by {
            assert(front[i] == targets[i]);
        }
        lemma_deliver(s, author, value, front);
        let mid = s.deliver(author, value, front);
        let d = targets.last();
        assert(d == targets[targets.len() - 1]);
        lemma_note(mid, d, author, value);
    }
}

/// The covered neighbours of a position are covered positions of the board.
pub proof fn lemma_covered_around(s: State, c: Coord)
    ensures
        forall|i: int|
            0 <= i < s.covered_around(c).len() ==> s.on_board(#[trigger] s.covered_around(c)[i])
                && s.covered(s.covered_around(c)[i]),
        s.covered_around(c).len() <= 8,
        s.flagged_around(c).len() <= 8,
        s.covered_around(c).no_duplicates(),
{
    lemma_neighbour_seq(s.h, s.w, c);
    let all = s.around(c);
    let cov = s.covered_around(c);
    lemma_filter_members(all, s.is_covered());
    lemma_filter_members(all, s.is_flagged());
    assert forall|i: int| 0 <= i < cov.len() implies s.on_board(#[trigger] cov[i]) && s.covered(
        cov[i],
    ) by {
        assert(cov.contains(cov[i]));
    }
    lemma_filter_no_duplicates(all, s.is_covered());
}

/// Score propagation from a position of the board keeps the state coherent,
/// and valid if it was; only notes, frontier and stacking change.
pub proof fn lemma_propagate(s: State, c: Coord)
    requires
        s.coherent(),
    ensures
        0 <= s.verdict(c) <= CERTAIN,
        s.propagate(c).coherent(),
        s.valid() ==> s.propagate(c).valid(),
        s.same_ground(s.propagate(c)),
        s.extends_to(s.propagate(c)),
{
    lemma_covered_around(s, c);
    lemma_risk_range(s.covered_around(c).len() as int, s.remaining(c));
    lemma_deliver(s, c, s.verdict(c) as i32, s.covered_around(c));
}

/// Score propagation from several positions keeps the state coherent, and
/// valid if it was; only notes, frontier and stacking change.
pub proof fn lemma_propagate_all(s: State, sources: Seq<Coord>)
    requires
        s.coherent(),
    ensures
        s.propagate_all(sources).coherent(),
        s.valid() ==> s.propagate_all(sources).valid(),
        s.same_ground(s.propagate_all(sources)),
        s.extends_to(s.propagate_all(sources)),
    decreases sources.len(),
{
    if sources.len() > 0 {
        lemma_propagate_all(s, sources.drop_last());
        lemma_propagate(s.propagate_all(sources.drop_last()), sources.last());
    }
}

} // verus!
