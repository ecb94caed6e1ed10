//! Keeping the notes true: after every operation each note on a covered
//! cell says what its author, an opened neighbour, would say now.

use crate::cell::{has_author, lemma_with_note_ok, with_note, Coord, Note, CERTAIN};
use crate::flood::lemma_uncover;
use crate::grid::lemma_neighbour_seq;
use crate::model::{lemma_covered_around, lemma_deliver, lemma_note, lemma_propagate, State};
use crate::model::lemma_propagate_all;
use crate::moves::lemma_flag;
use crate::seqs::{lemma_filter_agree, lemma_filter_members};
use vstd::prelude::*;

verus! {

impl State {
    /// Whether a note on the covered cell at `d` can be trusted: its author
    /// is an opened neighbour of `d`, and the note says what the author
    /// would say now, unless the author is among those that still have to
    /// speak again.
    pub open spec fn note_holds(self, d: Coord, note: Note, pending: Set<Coord>) -> bool {
        &&& self.opened.contains(note.0)
        &&& self.around(note.0).contains(d)
        &&& note.1 == self.verdict(note.0) || pending.contains(note.0)
    }

    /// Whether every note on a covered cell can be trusted, but for those of
    /// the authors in `pending`.
    pub open spec fn notes_current_but(self, pending: Set<Coord>) -> bool {
        forall|d: Coord, i: int|
            self.on_board(d) && self.covered(d) && 0 <= i < self.cells[d].notes.len()
                ==> self.note_holds(d, #[trigger] self.cells[d].notes[i], pending)
    }

    /// Whether every note on a covered cell says what its author would say
    /// now.
    pub open spec fn notes_current(self) -> bool {
        self.notes_current_but(Set::<Coord>::empty())
    }
}

/// What a cell has to say depends on its own content and on what is opened
/// and flagged among its neighbours, and on nothing else.
pub proof fn lemma_verdict_local(s: State, t: State, k: Coord)
    requires
        s.h == t.h,
        s.w == t.w,
        s.cells[k].content == t.cells[k].content,
        forall|i: int|
            0 <= i < s.around(k).len() ==> {
                let x = #[trigger] s.around(k)[i];
                s.marked.contains(x) == t.marked.contains(x) && s.opened.contains(x)
                    == t.opened.contains(x)
            },
    ensures
        s.verdict(k) == t.verdict(k),
        s.covered_around(k) == t.covered_around(k),
        s.flagged_around(k) == t.flagged_around(k),
{
    let all = s.around(k);
    assert forall|i: int| 0 <= i < all.len() implies (s.is_flagged())(#[trigger] all[i]) == (
    t.is_flagged())(all[i]) by {}
    assert forall|i: int| 0 <= i < all.len() implies (s.is_covered())(#[trigger] all[i]) == (
    t.is_covered())(all[i]) by {}
    lemma_filter_agree(all, s.is_flagged(), t.is_flagged());
    lemma_filter_agree(all, s.is_covered(), t.is_covered());
}

/// States that differ at most in notes, frontier and stacking give every
/// cell the same verdict.
pub proof fn lemma_verdict_same_ground(s: State, t: State, k: Coord)
    requires
        s.same_ground(t),
    ensures
        s.verdict(k) == t.verdict(k),
        s.covered_around(k) == t.covered_around(k),
{
    lemma_verdict_local(s, t, k);
}

/// What holds while `author` writes its verdict to its covered neighbours
/// one by one: every note can be trusted but for the pending authors, and
/// on the cells in `done` the notes of `author` are current.
pub open spec fn writing(s: State, pending: Set<Coord>, author: Coord, done: Seq<Coord>) -> bool {
    &&& s.notes_current_but(pending)
    &&& forall|d: Coord, i: int|
        s.on_board(d) && s.covered(d) && 0 <= i < s.cells[d].notes.len() && done.contains(d) && (
        #[trigger] s.cells[d].notes[i]).0 == author ==> s.cells[d].notes[i].1 == s.verdict(author)
}

/// One note written by an opened cell to a covered neighbour keeps the
/// notes trustworthy, and makes the author's note on that neighbour
/// current.
pub proof fn lemma_note_current(
    s: State,
    d: Coord,
    author: Coord,
    pending: Set<Coord>,
    done: Seq<Coord>,
)
    requires
        s.coherent(),
        writing(s, pending, author, done),
        s.on_board(d),
        s.covered(d),
        s.opened.contains(author),
        s.around(author).contains(d),
        0 <= s.verdict(author) <= CERTAIN,
    ensures
        writing(s.note(d, author, s.verdict(author) as i32), pending, author, done.push(d)),
{
    let v = s.verdict(author) as i32;
    let t = s.note(d, author, v);
    lemma_note(s, d, author, v);
    assert(s.cells.dom().contains(d));
    let old_notes = s.cells[d].notes;
    let new_notes = with_note(old_notes, author, v);
    lemma_with_note_ok(old_notes, author, v);
    crate::seqs::lemma_push_members(done, d);
    assert forall|x: Coord, i: int|
        t.on_board(x) && t.covered(x) && 0 <= i < t.cells[x].notes.len() implies t.note_holds(
        x,
        #[trigger] t.cells[x].notes[i],
        pending,
    ) && (done.push(d).contains(x) && t.cells[x].notes[i].0 == author ==> t.cells[x].notes[i].1
        == t.verdict(author)) by {
        let n = t.cells[x].notes[i];
        lemma_verdict_same_ground(s, t, n.0);
        lemma_verdict_same_ground(s, t, author);
        if x == d {
            if has_author(old_notes, author) {
                let at = choose|at: int|
                    0 <= at < old_notes.len() && (#[trigger] old_notes[at]).0 == author;
                if i != at {
                    assert(new_notes[i] == old_notes[i]);
                    assert(s.note_holds(x, s.cells[x].notes[i], pending));
                    assert(old_notes[i].0 != old_notes[at].0);
                }
            } else {
                if i < old_notes.len() {
                    assert(new_notes[i] == old_notes[i]);
                    assert(s.note_holds(x, s.cells[x].notes[i], pending));
                    assert(old_notes[i].0 != author);
                }
            }
        } else {
            assert(t.cells[x] == s.cells[x]);
            assert(s.note_holds(x, s.cells[x].notes[i], pending));
        }
    }
}

/// An opened cell that writes its verdict to each of its covered
/// neighbours keeps the notes trustworthy and needs not speak again.
pub proof fn lemma_propagate_current(s: State, k: Coord, pending: Set<Coord>)
    requires
        s.coherent(),
        s.notes_current_but(pending),
        s.opened.contains(k),
    ensures
        s.propagate(k).notes_current_but(pending.remove(k)),
{
    lemma_covered_around(s, k);
    lemma_propagate(s, k);
    let cov = s.covered_around(k);
    let v = s.verdict(k) as i32;
    lemma_filter_members(s.around(k), s.is_covered());
    lemma_deliver_current(s, k, pending, cov.len() as int);
    assert(cov.take(cov.len() as int) == cov);
    let t = s.propagate(k);
    assert forall|d: Coord, i: int|
        t.on_board(d) && t.covered(d) && 0 <= i < t.cells[d].notes.len() implies t.note_holds(
        d,
        #[trigger] t.cells[d].notes[i],
        pending.remove(k),
    ) by {
        let n = t.cells[d].notes[i];
        assert(t.note_holds(d, n, pending));
        if n.0 == k {
            assert(s.around(k).contains(d));
            assert((s.is_covered())(d));
            assert(cov.contains(d));
        }
    }
}

/// The first `j` notes of a propagation keep the notes trustworthy and make
/// the author's notes on the first `j` covered neighbours current.
pub proof fn lemma_deliver_current(s: State, k: Coord, pending: Set<Coord>, j: int)
    requires
        s.coherent(),
        s.notes_current_but(pending),
        s.opened.contains(k),
        0 <= j <= s.covered_around(k).len(),
    ensures
        writing(
            s.deliver(k, s.verdict(k) as i32, s.covered_around(k).take(j)),
            pending,
            k,
            s.covered_around(k).take(j),
        ),
        s.same_ground(s.deliver(k, s.verdict(k) as i32, s.covered_around(k).take(j))),
        s.deliver(k, s.verdict(k) as i32, s.covered_around(k).take(j)).coherent(),
    decreases j,
{
    lemma_covered_around(s, k);
    lemma_propagate(s, k);
    let cov = s.covered_around(k);
    let v = s.verdict(k) as i32;
    let part = cov.take(j);
    assert forall|i: int| 0 <= i < part.len() implies s.on_board(#[trigger] part[i]) && s.covered(
        part[i],
    ) by {
        assert(part[i] == cov[i]);
    }
    lemma_deliver(s, k, v, part);
    if j == 0 {
        assert(part.len() == 0);
        assert(s.deliver(k, v, part) == s);
        assert forall|d: Coord| !part.contains(d) by {}
    } else {
        lemma_deliver_current(s, k, pending, j - 1);
        let before = cov.take(j - 1);
        assert(part.drop_last() == before);
        assert(part.last() == cov[j - 1]);
        let mid = s.deliver(k, v, before);
        let d = cov[j - 1];
        lemma_verdict_same_ground(s, mid, k);
        lemma_filter_members(s.around(k), s.is_covered());
        assert(cov.contains(d));
        assert(mid.around(k) == s.around(k));
        lemma_note_current(mid, d, k, pending, before);
        assert(before.push(d) == part);
    }
}

/// Opened cells that write their verdicts one after the other keep the
/// notes trustworthy, and none of them needs speak again.
pub proof fn lemma_propagate_all_current(s: State, sources: Seq<Coord>, pending: Set<Coord>)
    requires
        s.coherent(),
        s.notes_current_but(pending),
        forall|i: int| 0 <= i < sources.len() ==> s.opened.contains(#[trigger] sources[i]),
    ensures
        s.propagate_all(sources).notes_current_but(pending - sources.to_set()),
    decreases sources.len(),
{
    if sources.len() == 0 {
        assert(pending - sources.to_set() =~= pending);
    } else {
        let front = sources.drop_last();
        let last = sources.last();
        assert forall|i: int| 0 <= i < front.len() implies s.opened.contains(
            #[trigger] front[i],
        ) by {
            assert(front[i] == sources[i]);
        }
        lemma_propagate_all_current(s, front, pending);
        lemma_propagate_all(s, front);
        let mid = s.propagate_all(front);
        assert(s.opened.contains(sources[sources.len() - 1]));
        lemma_propagate_current(mid, last, pending - front.to_set());
        crate::seqs::lemma_push_members(front, last);
        assert(front.push(last) == sources);
        assert((pending - front.to_set()).remove(last) =~= pending - sources.to_set());
    }
}

/// The authors that have not spoken again yet when the refresh has come to
/// row `i` and column `j`: the stirred positions from there on.
pub open spec fn to_refresh(s: State, region: Set<Coord>, i: int, j: int) -> Set<Coord> {
    Set::new(|k: Coord| s.stirred(region, k) && !(k.0 < i || (k.0 == i && k.1 < j)))
}

/// States that differ at most in notes, frontier and stacking have the
/// same stirred positions.
pub proof fn lemma_stirred_same_ground(s: State, t: State, region: Set<Coord>, k: Coord)
    requires
        s.same_ground(t),
    ensures
        s.stirred(region, k) == t.stirred(region, k),
{
    assert(s.around(k) == t.around(k));
    if s.near(region, k) {
        let i = choose|i: int|
            0 <= i < s.around(k).len() && region.contains(#[trigger] s.around(k)[i]);
        assert(region.contains(t.around(k)[i]));
    }
    if t.near(region, k) {
        let i = choose|i: int|
            0 <= i < t.around(k).len() && region.contains(#[trigger] t.around(k)[i]);
        assert(region.contains(s.around(k)[i]));
    }
}

/// The refresh lets every stirred position speak again, row by row.
pub proof fn lemma_refresh_current(s: State, region: Set<Coord>, i: int, j: int)
    requires
        s.coherent(),
        s.notes_current_but(to_refresh(s, region, 0, 0)),
        0 <= i <= s.h,
        0 <= j <= s.w,
    ensures
        s.refresh_cells(region, i, j).notes_current_but(to_refresh(s, region, i, j)),
    decreases i, j,
{
    crate::flood::lemma_refresh_cells(s, region, i, j);
    if j > 0 {
        lemma_refresh_current(s, region, i, j - 1);
        crate::flood::lemma_refresh_cells(s, region, i, j - 1);
        let p = s.refresh_cells(region, i, j - 1);
        let k = (i as usize, (j - 1) as usize);
        lemma_stirred_same_ground(s, p, region, k);
        if p.stirred(region, k) {
            lemma_propagate_current(p, k, to_refresh(s, region, i, j - 1));
            assert(to_refresh(s, region, i, j - 1).remove(k) =~= to_refresh(s, region, i, j));
        } else {
            assert(to_refresh(s, region, i, j - 1) =~= to_refresh(s, region, i, j));
        }
    } else if i > 0 {
        lemma_refresh_current(s, region, i - 1, s.w as int);
        assert(to_refresh(s, region, i - 1, s.w as int) =~= to_refresh(s, region, i, 0)) by {
            assert forall|k: Coord| s.stirred(region, k) implies k.1 < s.w by {
                assert(s.opened.contains(k));
            }
        }
    }
}

/// After a region has been opened, the notes can be trusted but for those
/// of the stirred positions.
pub proof fn lemma_uncover_current(s: State, c: Coord)
    requires
        s.valid(),
        s.notes_current(),
        s.can_open(c),
        s.cells[c].content != crate::cell::Content::Mine,
    ensures
        s.uncover(s.region(c)).notes_current_but(
            to_refresh(s.uncover(s.region(c)), s.region(c), 0, 0),
        ),
{
    let r = s.region(c);
    let a = s.uncover(r);
    lemma_uncover(s, c);
    assert forall|d: Coord, i: int|
        a.on_board(d) && a.covered(d) && 0 <= i < a.cells[d].notes.len() implies a.note_holds(
        d,
        #[trigger] a.cells[d].notes[i],
        to_refresh(a, r, 0, 0),
    ) by {
        let n = a.cells[d].notes[i];
        let k = n.0;
        assert(s.note_holds(d, s.cells[d].notes[i], Set::<Coord>::empty()));
        if !a.near(r, k) {
            assert forall|t: int| 0 <= t < s.around(k).len() implies {
                let x = #[trigger] s.around(k)[t];
                s.marked.contains(x) == a.marked.contains(x) && s.opened.contains(x)
                    == a.opened.contains(x)
            } by {
                assert(!r.contains(a.around(k)[t]));
            }
            lemma_verdict_local(s, a, k);
        } else {
            assert(a.stirred(r, k));
        }
    }
}

/// After a position has got its flag, the notes can be trusted but for
/// those of its opened neighbours.
pub proof fn lemma_flag_current(s: State, c: Coord)
    requires
        s.coherent(),
        s.notes_current(),
        s.on_board(c),
        !s.opened.contains(c),
    ensures
        s.flag(c).notes_current_but(s.flag(c).opened_around(c).to_set()),
{
    let f = s.flag(c);
    lemma_flag(s, c);
    lemma_filter_members(f.around(c), f.is_opened());
    assert forall|d: Coord, i: int|
        f.on_board(d) && f.covered(d) && 0 <= i < f.cells[d].notes.len() implies f.note_holds(
        d,
        #[trigger] f.cells[d].notes[i],
        f.opened_around(c).to_set(),
    ) by {
        let n = f.cells[d].notes[i];
        let k = n.0;
        assert(s.note_holds(d, s.cells[d].notes[i], Set::<Coord>::empty()));
        lemma_neighbour_seq(s.h, s.w, k);
        lemma_neighbour_seq(s.h, s.w, c);
        if s.around(k).contains(c) {
            assert(f.around(c).contains(k));
            assert((f.is_opened())(k));
            assert(f.opened_around(c).contains(k));
        } else {
            assert forall|t: int| 0 <= t < s.around(k).len() implies {
                let x = #[trigger] s.around(k)[t];
                s.marked.contains(x) == f.marked.contains(x) && s.opened.contains(x)
                    == f.opened.contains(x)
            } by {
                assert(s.around(k).contains(s.around(k)[t]));
            }
            lemma_verdict_local(s, f, k);
        }
    }
}

/// Flagging with the neighbours' reaction keeps the notes current.
pub proof fn lemma_mark_core_current(s: State, c: Coord)
    requires
        s.coherent(),
        s.notes_current(),
        s.on_board(c),
        !s.opened.contains(c),
    ensures
        s.mark_core(c).notes_current(),
{
    let f = s.flag(c);
    lemma_flag(s, c);
    lemma_flag_current(s, c);
    let sources = f.opened_around(c);
    lemma_filter_members(f.around(c), f.is_opened());
    assert forall|i: int| 0 <= i < sources.len() implies f.opened.contains(
        #[trigger] sources[i],
    ) by {
        assert(sources.contains(sources[i]));
    }
    lemma_propagate_all_current(f, sources, sources.to_set());
    assert(sources.to_set() - sources.to_set() =~= Set::<Coord>::empty());
}

/// Opening a position keeps the notes current.
pub proof fn lemma_open_current(s: State, c: Coord)
    requires
        s.valid(),
        s.notes_current(),
        s.can_open(c),
        s.cells[c].content != crate::cell::Content::Mine,
    ensures
        s.open(c).notes_current(),
{
    let r = s.region(c);
    let a = s.uncover(r);
    lemma_uncover(s, c);
    lemma_uncover_current(s, c);
    lemma_refresh_current(a, r, a.h as int, 0);
    let b = a.refresh(r);
    assert(to_refresh(a, r, a.h as int, 0) =~= Set::<Coord>::empty()) by {
        assert forall|k: Coord| a.stirred(r, k) implies k.0 < a.h by {
            assert(a.opened.contains(k));
        }
    }
    let t = b.sorted();
    assert(t.notes_current()) by {
        assert forall|d: Coord, i: int|
            t.on_board(d) && t.covered(d) && 0 <= i < t.cells[d].notes.len() implies t.note_holds(
            d,
            #[trigger] t.cells[d].notes[i],
            Set::<Coord>::empty(),
        ) by {
            assert(b.note_holds(d, b.cells[d].notes[i], Set::<Coord>::empty()));
            lemma_verdict_local(b, t, t.cells[d].notes[i].0);
        }
    }
}

} // verus!
