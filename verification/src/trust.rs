//! What a game on a true board can rely on: a score of `Mine` is a mine, a
//! score of `Val(0)` is safe, no flag is ever wrong, and the obvious is
//! resolved without a loss.

use crate::board::{laid, mines_around};
use crate::cell::{Content, Coord, CERTAIN};
use crate::deduce::{lemma_certain_mine, lemma_certain_safe, lemma_mine_score, lemma_risk_plausible};
use crate::deduce::{lemma_safe_score, plausible};
use crate::flood::lemma_open;
use crate::frontier::lemma_sorted;
use crate::game::{lemma_flagged_shrinks, lemma_opened_shrinks, lemma_run_from, lemma_seed};
use crate::game::{lemma_settle, lemma_take_next};
use crate::grid::{in_grid, lemma_neighbour_seq};
use crate::model::{lemma_covered_around, State};
use crate::moves::{lemma_mark_each, lemma_mark_obvious, lemma_pop, lemma_skipped_run_valid};
use crate::score::Score;
use crate::seqs::{lemma_distinct_within, lemma_filter_agree, lemma_filter_members, member_of};
use crate::setup::lemma_initial;
use crate::sound::{lemma_mark_core_current, lemma_open_current, lemma_verdict_local};
use vstd::prelude::*;

verus! {

impl State {
    /// Whether the game can be relied on: the state is valid, the board
    /// counts its mines truly, every flag stands on a mine, and every note
    /// on a covered cell says what its author would say now.
    pub open spec fn sound(self) -> bool {
        &&& self.valid()
        &&& self.true_counts()
        &&& self.flags_true()
        &&& self.notes_current()
    }

    /// Whether `other` has the board of `self`.
    pub open spec fn same_board(self, other: State) -> bool {
        &&& self.h == other.h
        &&& self.w == other.w
        &&& self.cells.dom() == other.cells.dom()
        &&& forall|c: Coord|
            #![trigger self.cells[c]]
            #![trigger other.cells[c]]
            self.cells[c].content == other.cells[c].content
    }
}

/// A state with the board of a state with true counts has true counts.
pub proof fn lemma_true_counts_kept(s: State, t: State)
    requires
        s.true_counts(),
        s.same_board(t),
    ensures
        t.true_counts(),
{
    assert forall|c: Coord| t.on_board(c) implies match (#[trigger] t.cells[c]).content {
        Content::Empty(n) => n == t.mined_around(c).len(),
        Content::Mine => true,
    } by {
        assert(s.cells[c].content == t.cells[c].content);
        let all = s.around(c);
        assert forall|i: int| 0 <= i < all.len() implies (s.is_mined())(#[trigger] all[i]) == (
        t.is_mined())(all[i]) by {
            assert(s.cells[all[i]].content == t.cells[all[i]].content);
        }
        lemma_filter_agree(all, s.is_mined(), t.is_mined());
    }
}

/// A state that differs from one with current notes only in its frontier,
/// its stacking and the positions left has current notes.
pub proof fn lemma_current_kept(s: State, t: State)
    requires
        s.notes_current(),
        s.same_board(t),
        s.cells == t.cells,
        s.opened == t.opened,
        s.marked == t.marked,
    ensures
        t.notes_current(),
{
    assert forall|d: Coord, i: int|
        t.on_board(d) && t.covered(d) && 0 <= i < t.cells[d].notes.len() implies t.note_holds(
        d,
        #[trigger] t.cells[d].notes[i],
        Set::<Coord>::empty(),
    ) by {
        assert(s.note_holds(d, s.cells[d].notes[i], Set::<Coord>::empty()));
        lemma_verdict_local(s, t, t.cells[d].notes[i].0);
    }
}

/// Where the notes are current, a covered cell has at most eight notes,
/// each of them a plausible contribution.
pub proof fn lemma_notes_plausible(s: State, d: Coord)
    requires
        s.coherent(),
        s.notes_current(),
        s.on_board(d),
        s.covered(d),
    ensures
        s.cells[d].notes.len() <= 8,
        forall|i: int|
            0 <= i < s.cells[d].notes.len() ==> plausible((#[trigger] s.cells[d].notes[i]).1 as int),
{
    let notes = s.cells[d].notes;
    assert(s.cells.dom().contains(d));
    let authors = Seq::new(notes.len(), |i: int| notes[i].0);
    lemma_neighbour_seq(s.h, s.w, d);
    assert forall|i: int| 0 <= i < authors.len() implies s.around(d).contains(
        #[trigger] authors[i],
    ) by {
        assert(s.note_holds(d, s.cells[d].notes[i], Set::<Coord>::empty()));
        lemma_neighbour_seq(s.h, s.w, notes[i].0);
    }
    assert(authors.no_duplicates()) by {
        assert forall|a: int, b: int|
            0 <= a < authors.len() && 0 <= b < authors.len() && a != b implies authors[a]
            != authors[b] by {
            if a < b {
                assert(notes[a].0 != notes[b].0);
            } else {
                assert(notes[b].0 != notes[a].0);
            }
        }
    }
    lemma_distinct_within(authors, s.around(d));
    assert forall|i: int| 0 <= i < notes.len() implies plausible(
        (#[trigger] s.cells[d].notes[i]).1 as int,
    ) by {
        assert(s.note_holds(d, s.cells[d].notes[i], Set::<Coord>::empty()));
        let k = notes[i].0;
        lemma_covered_around(s, k);
        lemma_risk_plausible(s.covered_around(k).len() as int, s.remaining(k));
    }
}

/// On a sound state a covered cell with the score `Mine` hides a mine.
pub proof fn lemma_sure_is_mine(s: State, d: Coord)
    requires
        s.sound(),
        s.on_board(d),
        s.covered(d),
        s.score_at(d) == Score::Mine,
    ensures
        s.cells[d].content == Content::Mine,
{
    let notes = s.cells[d].notes;
    lemma_notes_plausible(s, d);
    lemma_mine_score(notes);
    let i = choose|i: int| 0 <= i < notes.len() && (#[trigger] notes[i]).1 == CERTAIN;
    assert(s.note_holds(d, s.cells[d].notes[i], Set::<Coord>::empty()));
    let k = notes[i].0;
    lemma_filter_members(s.around(k), s.is_covered());
    assert((s.is_covered())(d));
    lemma_certain_mine(s, k, d);
}

/// On a sound state a covered cell with the score `Val(0)` hides no mine.
pub proof fn lemma_safe_is_safe(s: State, d: Coord)
    requires
        s.sound(),
        s.on_board(d),
        s.covered(d),
        s.score_at(d) == Score::Val(0),
    ensures
        s.cells[d].content != Content::Mine,
{
    let notes = s.cells[d].notes;
    assert(s.cells.dom().contains(d));
    lemma_notes_plausible(s, d);
    lemma_safe_score(notes);
    let i = choose|i: int| 0 <= i < notes.len() && (#[trigger] notes[i]).1 == 0;
    assert(s.note_holds(d, s.cells[d].notes[i], Set::<Coord>::empty()));
    let k = notes[i].0;
    lemma_filter_members(s.around(k), s.is_covered());
    assert((s.is_covered())(d));
    lemma_certain_safe(s, k, d);
}

/// Opening a position that hides no mine keeps a state sound.
pub proof fn lemma_open_sound(s: State, c: Coord)
    requires
        s.sound(),
        s.can_open(c),
        s.cells[c].content != Content::Mine,
    ensures
        s.open(c).sound(),
{
    lemma_open(s, c);
    lemma_open_current(s, c);
    lemma_true_counts_kept(s, s.open(c));
}

/// Taking the next position from the frontier keeps a state sound.
pub proof fn lemma_pop_sound(s: State)
    requires
        s.sound(),
        s.frontier.len() > 0,
    ensures
        s.pop().sound(),
{
    lemma_pop(s);
    lemma_true_counts_kept(s, s.pop());
    lemma_current_kept(s, s.pop());
}

/// Putting a position that is left on the empty frontier keeps a state
/// sound.
pub proof fn lemma_seed_sound(s: State, c: Coord)
    requires
        s.sound(),
        s.frontier.len() == 0,
        s.left.contains(c),
    ensures
        s.seed(c).sound(),
{
    lemma_seed(s, c);
    lemma_true_counts_kept(s, s.seed(c));
    lemma_current_kept(s, s.seed(c));
}

/// Ranking the frontier keeps a state sound.
pub proof fn lemma_sorted_sound(s: State)
    requires
        s.sound(),
    ensures
        s.sorted().sound(),
{
    lemma_sorted(s);
    lemma_true_counts_kept(s, s.sorted());
    lemma_current_kept(s, s.sorted());
}

/// Flagging a covered mine keeps a state sound.
pub proof fn lemma_mark_sound(s: State, c: Coord)
    requires
        s.sound(),
        s.on_board(c),
        !s.opened.contains(c),
        s.cells[c].content == Content::Mine,
    ensures
        s.mark(c).sound(),
{
    crate::moves::lemma_mark(s, c);
    crate::moves::lemma_mark_core(s, c);
    lemma_mark_core_current(s, c);
    let m = s.mark_core(c);
    let t = s.mark(c);
    assert(s.flag(c).same_board(m));
    lemma_true_counts_kept(s, t);
    lemma_current_kept(m, t);
    assert forall|e: Coord| #[trigger] t.marked.contains(e) implies t.cells[e].content
        == Content::Mine by {
        assert(s.cells[e].content == t.cells[e].content);
    }
}

/// Score propagation from an opened cell keeps a state sound.
pub proof fn lemma_propagate_sound(s: State, k: Coord)
    requires
        s.sound(),
        s.opened.contains(k),
    ensures
        s.propagate(k).sound(),
{
    crate::model::lemma_propagate(s, k);
    crate::sound::lemma_propagate_current(s, k, Set::<Coord>::empty());
    assert(Set::<Coord>::empty().remove(k) =~= Set::<Coord>::empty());
    lemma_true_counts_kept(s, s.propagate(k));
}

/// Flagging the first `k` positions of the frontier in turn keeps the notes
/// current.
pub proof fn lemma_mark_each_current(s: State, k: int)
    requires
        s.valid(),
        s.notes_current(),
        0 <= k <= s.frontier.len(),
    ensures
        s.mark_each(s.frontier.take(k)).notes_current(),
    decreases k,
{
    if k == 0 {
        assert(s.frontier.take(0).len() == 0);
        assert(s.mark_each(s.frontier.take(0)) == s);
    } else {
        let run = s.frontier.take(k);
        let c = s.frontier[k - 1];
        assert(run.drop_last() == s.frontier.take(k - 1));
        assert(run.last() == c);
        lemma_mark_each(s, k - 1);
        lemma_mark_each_current(s, k - 1);
        let p = s.mark_each(s.frontier.take(k - 1));
        assert(p.frontier[k - 1] == c);
        lemma_mark_core_current(p, c);
    }
}

/// Flagging the leading run of certain mines keeps a state sound: every
/// flag that it sets stands on a mine.
pub proof fn lemma_mark_obvious_sound(s: State, n: int)
    requires
        s.sound(),
        s.mine_run(n),
    ensures
        s.mark_obvious(n).sound(),
{
    lemma_mark_obvious(s, n);
    lemma_mark_each(s, n);
    lemma_mark_each_current(s, n);
    lemma_skipped_run_valid(s, n);
    let m = s.mark_each(s.frontier.take(n));
    let d = State { frontier: m.frontier.skip(n), ..m };
    let t = s.mark_obvious(n);
    assert(s.same_board(m));
    lemma_true_counts_kept(s, t);
    lemma_current_kept(m, d);
    lemma_sorted(d);
    lemma_current_kept(d, t);
    assert forall|c: Coord| #[trigger] t.marked.contains(c) implies t.cells[c].content
        == Content::Mine by {
        if !s.marked.contains(c) {
            assert(s.frontier.take(n).contains(c));
            let i = choose|i: int|
                0 <= i < s.frontier.take(n).len() && s.frontier.take(n)[i] == c;
            assert(s.frontier[i] == c);
            assert(s.stacked.contains(s.frontier[i]));
            lemma_sure_is_mine(s, c);
        }
        assert(s.cells[c].content == t.cells[c].content);
    }
}

/// From a sound state the obvious is resolved without opening a mine, and
/// the state stays sound.
pub proof fn lemma_settle_sound(s: State)
    requires
        s.sound(),
    ensures
        s.settle().1 == None::<Coord>,
        s.settle().0.sound(),
    decreases s.hidden(),
{
    lemma_run_from(s, 0);
    if s.next_safe() {
        let c = s.frontier.last();
        lemma_pop(s);
        lemma_pop_sound(s);
        assert(s.stacked.contains(s.frontier[s.frontier.len() - 1]));
        lemma_safe_is_safe(s, c);
        let p = s.pop();
        lemma_open_sound(p, c);
        lemma_opened_shrinks(p, c);
        lemma_settle_sound(p.open(c));
    } else if s.leading_mines() > 0 {
        let n = s.leading_mines();
        lemma_mark_obvious_sound(s, n);
        lemma_flagged_shrinks(s, n);
        lemma_settle_sound(s.mark_obvious(n));
    } else {
        lemma_mark_obvious_sound(s, 0);
    }
}

/// Play from a sound state never sets a wrong flag. It can only be lost on
/// the position that a turn takes, never while the obvious is resolved,
/// and where it is won from a state that accounted for every position,
/// the flags stand on exactly the mines of the board.
pub proof fn lemma_play_sound(s: State, turns: int)
    requires
        s.sound(),
    ensures
        s.play(turns).0.sound(),
        s.same_board(s.play(turns).0),
        s.play(turns).1 is Ok && s.covers_board() ==> s.play(turns).0.marked == s.mines(),
    decreases s.hidden(),
{
    lemma_take_next(s);
    match s.take_next() {
        None => {
            if s.covers_board() {
                assert(s.marked =~= s.mines()) by {
                    assert forall|c: Coord| s.mines().contains(c) implies s.marked.contains(c) by {
                        assert(s.accounted().contains(c));
                        assert(s.frontier.to_set() =~= Set::<Coord>::empty());
                    }
                }
            }
        },
        Some((p, c)) => {
            assert(p.sound()) by {
                if s.frontier.len() > 0 {
                    lemma_pop_sound(s);
                } else {
                    crate::game::lemma_least_exists(s.left, s.h, s.w);
                    lemma_seed(s, s.first_left());
                    lemma_seed_sound(s, s.first_left());
                    lemma_pop_sound(s.seed(s.first_left()));
                }
            }
            if p.cells[c].content != Content::Mine {
                lemma_open(p, c);
                lemma_open_sound(p, c);
                lemma_opened_shrinks(p, c);
                let t = p.open(c);
                lemma_settle(t);
                lemma_settle_sound(t);
                let q = t.settle().0;
                if s.covers_board() {
                    assert forall|e: Coord| t.on_board(e) implies #[trigger] t.accounted().contains(
                        e,
                    ) by {
                        if e != c {
                            assert(p.accounted().contains(e));
                        }
                    }
                }
                lemma_play_sound(q, turns + 1);
                assert(q.mines() =~= s.mines()) by {
                    assert forall|e: Coord| q.mines().contains(e) == s.mines().contains(e) by {
                        assert(s.cells[e].content == p.cells[e].content);
                        assert(p.cells[e].content == t.cells[e].content);
                        assert(t.cells[e].content == q.cells[e].content);
                    }
                }
                assert forall|e: Coord|
                    #![trigger s.cells[e]]
                    #![trigger s.play(turns).0.cells[e]]
                    s.cells[e].content == s.play(turns).0.cells[e].content by {
                    assert(s.cells[e].content == p.cells[e].content);
                    assert(p.cells[e].content == t.cells[e].content);
                    assert(t.cells[e].content == q.cells[e].content);
                    assert(q.cells[e].content == q.play(turns + 1).0.cells[e].content);
                }
            }
        },
    }
}

/// The start of play on a board laid out of its mines is sound.
pub proof fn lemma_initial_sound(h: usize, w: usize, mines: Set<Coord>)
    requires
        h >= 1,
        w >= 1,
        forall|c: Coord| mines.contains(c) ==> in_grid(h, w, c),
    ensures
        State::initial(h, w, mines).sound(),
{
    let s = State::initial(h, w, mines);
    lemma_initial(h, w, mines);
    assert forall|c: Coord| s.on_board(c) implies match (#[trigger] s.cells[c]).content {
        Content::Empty(n) => n == s.mined_around(c).len(),
        Content::Mine => true,
    } by {
        let all = s.around(c);
        lemma_neighbour_seq(h, w, c);
        assert forall|i: int| 0 <= i < all.len() implies (member_of(mines))(#[trigger] all[i]) == (
        s.is_mined())(all[i]) by {
            assert(all.contains(all[i]));
            assert(s.cells[all[i]].content == laid(mines, h, w, all[i]));
        }
        lemma_filter_agree(all, member_of(mines), s.is_mined());
        crate::board::lemma_mines_around_range(mines, h, w, c);
        assert(s.cells[c].content == laid(mines, h, w, c));
        assert(mines_around(mines, h, w, c) == s.mined_around(c).len());
    }
}

} // verus!
