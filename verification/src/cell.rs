//! A board cell: what it hides, what its opened neighbours have said about
//! it, and the score that those opinions add up to.

use crate::score::Score;
use vstd::prelude::*;

verus! {

/// A board position, as row and column.
pub type Coord = (usize, usize);

/// One opinion about a cell: who gave it, and the risk they assign.
pub type Note = (Coord, i32);

/// The largest contribution; it means "certainly a mine".
pub const CERTAIN: i32 = 1000;

/// What a cell hides: a mine, or nothing, with the number of mines around it.
#[derive(Debug, Clone, Copy, PartialEq, Eq, Structural)]
pub enum Content {
    Mine,
    Empty(i32),
}

/// A cell of the board.
#[derive(Debug, Clone)]
pub struct Cell {
    pub content: Content,
    /// Contributions in the order in which their authors first wrote, one
    /// per author.
    pub scores: Vec<(Coord, i32)>,
    /// The aggregate of `scores`.
    pub score: Score,
}

/// Whether two positions are the same.
pub fn same_coord(a: Coord, b: Coord) -> (r: bool)
    ensures
        r == (a == b),
{
    a.0 == b.0 && a.1 == b.1
}

/// Every author appears once, and every contribution lies in `0..=1000`.
pub open spec fn notes_ok(notes: Seq<Note>) -> bool {
    &&& forall|i: int, j: int|
        0 <= i < j < notes.len() ==> (#[trigger] notes[i]).0 != (#[trigger] notes[j]).0
    &&& forall|i: int| 0 <= i < notes.len() ==> 0 <= (#[trigger] notes[i]).1 <= CERTAIN
}

/// Whether `author` has a note in `notes`.
pub open spec fn has_author(notes: Seq<Note>, author: Coord) -> bool {
    exists|i: int| 0 <= i < notes.len() && (#[trigger] notes[i]).0 == author
}

/// Whether some contribution is exactly zero.
pub open spec fn has_zero(notes: Seq<Note>) -> bool {
    exists|i: int| 0 <= i < notes.len() && (#[trigger] notes[i]).1 == 0
}

/// The notes after `author` has written `value`: an earlier note of the same
/// author is replaced where it stands, a new author is appended.
pub open spec fn with_note(notes: Seq<Note>, author: Coord, value: i32) -> Seq<Note> {
    if has_author(notes, author) {
        let i = choose|i: int| 0 <= i < notes.len() && (#[trigger] notes[i]).0 == author;
        notes.update(i, (author, value))
    } else {
        notes.push((author, value))
    }
}

/// One step of the sum: once a contribution or the running total is exactly
/// 1000, the total stays 1000.
pub open spec fn blend(total: int, value: int) -> int {
    if value == CERTAIN || total == CERTAIN {
        CERTAIN as int
    } else {
        total + value
    }
}

/// The sum of the contributions, taken in order, pinned at 1000 once reached.
pub open spec fn running_sum(notes: Seq<Note>) -> int
    decreases notes.len(),
{
    if notes.len() == 0 {
        0
    } else {
        blend(running_sum(notes.drop_last()), notes.last().1 as int)
    }
}

/// The pooled sum. A zero contribution is sticky as well: one neighbour that
/// rules a mine out pins the sum to zero, whatever the others say.
pub open spec fn pooled_sum(notes: Seq<Note>) -> int {
    if has_zero(notes) {
        0
    } else {
        running_sum(notes)
    }
}

/// The score that a list of contributions adds up to. With no contribution
/// at all a cell keeps the score it was created with.
pub open spec fn aggregate(notes: Seq<Note>) -> Score {
    let n = notes.len() as int;
    let sum = pooled_sum(notes);
    if n == 0 {
        Score::NotEnough(0)
    } else if sum == CERTAIN {
        Score::Mine
    } else if n == 1 && sum != 0 {
        Score::NotEnough((sum / n) as i32)
    } else {
        Score::Val((sum / n) as i32)
    }
}

/// The running sum of in-range contributions is bounded by their number.
pub proof fn lemma_running_sum_bounds(notes: Seq<Note>)
    requires
        notes_ok(notes),
    ensures
        0 <= running_sum(notes) <= CERTAIN * notes.len(),
    decreases notes.len(),
{
    if notes.len() > 0 {
        let front = notes.drop_last();
        assert(notes_ok(front)) by {
            assert forall|i: int, j: int| 0 <= i < j < front.len() implies (#[trigger] front[i]).0
                != (#[trigger] front[j]).0 by {
                assert(front[i] == notes[i] && front[j] == notes[j]);
            }
            assert forall|i: int| 0 <= i < front.len() implies 0 <= (#[trigger] front[i]).1
                <= CERTAIN by {
                assert(front[i] == notes[i]);
            }
        }
        lemma_running_sum_bounds(front);
        assert(0 <= notes[notes.len() - 1].1 <= CERTAIN);
    }
}

/// Writing an in-range note keeps the notes in order.
pub proof fn lemma_with_note_ok(notes: Seq<Note>, author: Coord, value: i32)
    requires
        notes_ok(notes),
        0 <= value <= CERTAIN,
    ensures
        notes_ok(with_note(notes, author, value)),
        has_author(with_note(notes, author, value), author),
        forall|other: Coord|
            other != author ==> (has_author(with_note(notes, author, value), other)
                <==> has_author(notes, other)),
{
    let after = with_note(notes, author, value);
    if has_author(notes, author) {
        let i = choose|i: int| 0 <= i < notes.len() && (#[trigger] notes[i]).0 == author;
        assert(after[i].0 == author);
        assert forall|other: Coord| other != author implies (has_author(after, other)
            <==> has_author(notes, other)) by {
            if has_author(notes, other) {
                let k = choose|k: int| 0 <= k < notes.len() && (#[trigger] notes[k]).0 == other;
                assert(after[k].0 == other);
            }
            if has_author(after, other) {
                let k = choose|k: int| 0 <= k < after.len() && (#[trigger] after[k]).0 == other;
                assert(notes[k].0 == other);
            }
        }
    } else {
        assert(after[notes.len() as int].0 == author);
        assert forall|i: int, j: int| 0 <= i < j < after.len() implies (#[trigger] after[i]).0
            != (#[trigger] after[j]).0 by {
            if j == notes.len() {
                assert(notes[i].0 != author);
            }
        }
        assert forall|other: Coord| other != author implies (has_author(after, other)
            <==> has_author(notes, other)) by {
            if has_author(notes, other) {
                let k = choose|k: int| 0 <= k < notes.len() && (#[trigger] notes[k]).0 == other;
                assert(after[k].0 == other);
            }
            if has_author(after, other) {
                let k = choose|k: int| 0 <= k < after.len() && (#[trigger] after[k]).0 == other;
                assert(notes[k].0 == other);
            }
        }
    }
}

impl Cell {
    /// The contributions as a sequence.
    pub open spec fn notes(&self) -> Seq<Note> {
        self.scores@
    }

    /// The contributions are in order and the score is their aggregate.
    pub open spec fn wf(&self) -> bool {
        &&& notes_ok(self.scores@)
        &&& self.score == aggregate(self.scores@)
    }

    /// A cell with the given content and no contribution yet.
    pub fn from(c: Content) -> (cell: Cell)
        ensures
            cell.content == c,
            cell.scores@ == Seq::<Note>::empty(),
            cell.score == Score::NotEnough(0),
            cell.wf(),
    {
        Cell { content: c, scores: Vec::new(), score: Score::NotEnough(0) }
    }

    /// An empty cell with no mine around it.
    pub fn new() -> (cell: Cell)
        ensures
            cell.content == Content::Empty(0),
            cell.scores@ == Seq::<Note>::empty(),
            cell.score == Score::NotEnough(0),
            cell.wf(),
    {
        Cell::from(Content::Empty(0))
    }

    /// Records the contribution of `c` and brings the score up to date.
    pub fn insert(&mut self, c: Coord, score: i32)
        requires
            notes_ok(old(self).scores@),
            0 <= score <= CERTAIN,
        ensures
            final(self).content == old(self).content,
            final(self).scores@ == with_note(old(self).scores@, c, score),
            final(self).wf(),
    {
        let n = self.scores.len();
        let mut i: usize = 0;
        let mut found = false;
        while i < n
            invariant_except_break
                !found,
                forall|k: int| 0 <= k < i ==> (#[trigger] self.scores@[k]).0 != c,
            invariant
                i <= n,
                n == self.scores.len(),
                *self == *old(self),
            ensures
                found ==> i < n && self.scores@[i as int].0 == c,
                !found ==> !has_author(self.scores@, c),
            decreases n - i,
        {
            if same_coord(self.scores[i].0, c) {
                found = true;
                break;
            }
            i += 1;
        }
        proof {
            lemma_with_note_ok(self.scores@, c, score);
        }
        if found {
            proof {
                let j = choose|j: int|
                    0 <= j < self.scores@.len() && (#[trigger] self.scores@[j]).0 == c;
                assert(j == i);
            }
            self.scores.set(i, (c, score));
        } else {
            self.scores.push((c, score));
        }
        self.refresh_score();
    }

    /// Counts one more mine around an empty cell; a mine stays as it is.
    pub fn incr(&mut self)
        requires
            old(self).content matches Content::Empty(n) ==> n < i32::MAX,
        ensures
            final(self).content == match old(self).content {
                Content::Empty(n) => Content::Empty((n + 1) as i32),
                Content::Mine => Content::Mine,
            },
            final(self).scores == old(self).scores,
            final(self).score == old(self).score,
    {
        match self.content {
            Content::Empty(n) => {
                self.content = Content::Empty(n + 1);
            },
            Content::Mine => {},
        }
    }

    /// Recomputes the score from the contributions.
    pub fn refresh_score(&mut self)
        requires
            notes_ok(old(self).scores@),
        ensures
            final(self).content == old(self).content,
            final(self).scores == old(self).scores,
            final(self).score == aggregate(old(self).scores@),
    {
        let n = self.scores.len();
        let mut total: u128 = 0;
        let mut zero = false;
        let mut i: usize = 0;
        while i < n
            invariant
                i <= n,
                n == self.scores.len(),
                *self == *old(self),
                notes_ok(self.scores@),
                total == running_sum(self.scores@.take(i as int)),
                total <= CERTAIN * i,
                zero == has_zero(self.scores@.take(i as int)),
            decreases n - i,
        {
            let value = self.scores[i].1;
            proof {
                let before = self.scores@.take(i as int);
                let upto = self.scores@.take(i + 1);
                assert(upto.drop_last() == before);
                assert(upto.last() == self.scores@[i as int]);
                assert(0 <= self.scores@[i as int].1 <= CERTAIN);
                if has_zero(before) {
                    let k = choose|k: int| 0 <= k < before.len() && (#[trigger] before[k]).1 == 0;
                    assert(upto[k].1 == 0);
                }
                if value == 0 {
                    assert(upto[i as int].1 == 0);
                }
                if has_zero(upto) {
                    let k = choose|k: int| 0 <= k < upto.len() && (#[trigger] upto[k]).1 == 0;
                    if k < i {
                        assert(before[k].1 == 0);
                    }
                }
            }
            if value == 0 {
                zero = true;
            }
            if value == CERTAIN || total == 1000 {
                total = 1000;
            } else {
                total = total + value as u128;
            }
            i += 1;
        }
        assert(self.scores@.take(n as int) == self.scores@);
        let sum: u128 = if zero { 0 } else { total };
        if n == 0 {
            self.score = Score::NotEnough(0);
        } else if sum == 1000 {
            self.score = Score::Mine;
        } else {
            let mean: u128 = sum / (n as u128);
            assert(mean <= CERTAIN) by (nonlinear_arith)
                requires
                    mean == sum / (n as u128),
                    sum <= CERTAIN * n,
                    n > 0,
                    CERTAIN == 1000,
            ;
            if n == 1 && sum != 0 {
                self.score = Score::NotEnough(mean as i32);
            } else {
                self.score = Score::Val(mean as i32);
            }
        }
    }
}

} // verus!
