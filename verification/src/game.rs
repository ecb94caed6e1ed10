//! Playing a game to its end: take the next position, open it, resolve
//! what has become obvious, and look for a new start when the frontier
//! runs dry.

use crate::cell::{Content, Coord};
use crate::coords::precedes;
use crate::count::{lemma_outside_shrinks, outside, row_outside};
use crate::env::Env;
use crate::flood::lemma_open;
use crate::model::State;
use crate::moves::{lemma_mark_obvious, lemma_pop, lemma_quiet_once};
use crate::score::Score;
use vstd::prelude::*;

verus! {

/// A lost game: the turn on which a mine was opened, and where.
#[derive(Debug, Clone, Copy)]
pub struct Defeat {
    pub turns: usize,
    pub at: Coord,
}

impl State {
    /// The number of positions of the board that are neither opened nor
    /// flagged.
    pub open spec fn hidden(self) -> nat {
        outside(self.opened + self.marked, self.w, self.h as int)
    }

    /// Whether the game is won: every position of the board is opened or
    /// flagged, none is left and none is pending.
    pub open spec fn won(self) -> bool {
        &&& forall|c: Coord|
            self.on_board(c) ==> #[trigger] self.opened.contains(c) || self.marked.contains(c)
        &&& self.left == Set::<Coord>::empty()
        &&& self.frontier.len() == 0
    }

    /// The state after `c` has been put on the frontier.
    pub open spec fn seed(self, c: Coord) -> State {
        State { frontier: self.frontier.push(c), stacked: self.stacked.insert(c), ..self }
    }

    /// Whether `other` is a later state of the same game: the board is the
    /// same, and what was opened or flagged still is.
    pub open spec fn leads_to(self, other: State) -> bool {
        &&& self.h == other.h
        &&& self.w == other.w
        &&& self.cells.dom() == other.cells.dom()
        &&& forall|c: Coord|
            #![trigger self.cells[c]]
            #![trigger other.cells[c]]
            self.cells[c].content == other.cells[c].content
        &&& self.opened.subset_of(other.opened)
        &&& self.marked.subset_of(other.marked)
    }

    /// The end of the run of certain mines that starts at index `i` of the
    /// frontier.
    pub open spec fn run_from(self, i: int) -> int
        decreases self.frontier.len() - i,
    {
        if 0 <= i < self.frontier.len() && self.score_at(self.frontier[i]) == Score::Mine {
            self.run_from(i + 1)
        } else {
            i
        }
    }

    /// The length of the leading run of certain mines on the frontier.
    pub open spec fn leading_mines(self) -> int {
        self.run_from(0)
    }

    /// Whether the next position of the frontier is certainly safe.
    pub open spec fn next_safe(self) -> bool {
        self.frontier.len() > 0 && self.score_at(self.frontier.last()) == Score::Val(0)
    }

    /// Resolving what is obvious: as long as the next position is
    /// certainly safe it is taken and opened, and else the leading certain
    /// mines are flagged, until neither applies. The result is the state
    /// reached, and the position where a mine was opened, if one was.
    pub open spec fn settle(self) -> (State, Option<Coord>)
        decreases self.hidden(),
        when self.valid()
    {
        if self.next_safe() {
            let c = self.frontier.last();
            if self.cells[c].content == Content::Mine {
                (self.pop(), Some(c))
            } else {
                proof {
                    lemma_pop(self);
                    lemma_opened_shrinks(self.pop(), c);
                }
                self.pop().open(c).settle()
            }
        } else if self.leading_mines() > 0 {
            proof {
                lemma_run_from(self, 0);
                lemma_flagged_shrinks(self, self.leading_mines());
            }
            self.mark_obvious(self.leading_mines()).settle()
        } else {
            (self.mark_obvious(0), None)
        }
    }

    /// The first position that is left, row by row.
    pub open spec fn first_left(self) -> Coord {
        choose|c: Coord| is_first(self.left, c)
    }

    /// Taking the next position: the last one of the frontier, or the first
    /// one left when the frontier is empty. The result is the state after
    /// it has been taken, and the position; there is none when nothing is
    /// pending or left.
    pub open spec fn take_next(self) -> Option<(State, Coord)> {
        if self.frontier.len() > 0 {
            Some((self.pop(), self.frontier.last()))
        } else if self.left != Set::<Coord>::empty() {
            Some((self.seed(self.first_left()).pop(), self.first_left()))
        } else {
            None
        }
    }

    /// Play from this state on, after `turns` turns: each turn takes the
    /// next position, opens it and resolves what is obvious. The result is
    /// the state at the end, and the number of turns of a win or the turn
    /// and the place of the mine that was opened.
    pub open spec fn play(self, turns: int) -> (State, Result<int, (int, Coord)>)
        decreases self.hidden(),
        when self.valid()
    {
        match self.take_next() {
            None => (self, Ok(turns)),
            Some((p, c)) => if p.cells[c].content == Content::Mine {
                (p, Err((turns + 1, c)))
            } else {
                let (q, hit) = p.open(c).settle();
                match hit {
                    Some(at) => (q, Err((turns + 1, at))),
                    None => {
                        proof {
                            lemma_take_next(self);
                            lemma_opened_shrinks(p, c);
                            lemma_open(p, c);
                            lemma_settle(p.open(c));
                        }
                        q.play(turns + 1)
                    },
                }
            },
        }
    }
}

/// From index `i` on, behind positions that are all certain mines, the run
/// ends at the end of the leading run.
pub proof fn lemma_run_from(s: State, i: int)
    requires
        0 <= i <= s.frontier.len(),
        forall|k: int| 0 <= k < i ==> s.score_at(#[trigger] s.frontier[k]) == Score::Mine,
    ensures
        i <= s.run_from(i) <= s.frontier.len(),
        s.mine_run(s.run_from(i)),
    decreases s.frontier.len() - i,
{
    if i < s.frontier.len() && s.score_at(s.frontier[i]) == Score::Mine {
        lemma_run_from(s, i + 1);
    }
}

/// There is one leading run of certain mines.
pub proof fn lemma_mine_run_unique(s: State, n: int)
    requires
        s.mine_run(n),
    ensures
        n == s.leading_mines(),
{
    lemma_run_from(s, 0);
    let m = s.leading_mines();
    if n < m {
        assert(s.score_at(s.frontier[n]) == Score::Mine);
    } else if m < n {
        assert(s.score_at(s.frontier[m]) == Score::Mine);
    }
}

/// Putting a position that is left on an empty frontier keeps a state
/// valid and every position accounted for.
pub proof fn lemma_seed(s: State, c: Coord)
    requires
        s.valid(),
        s.frontier.len() == 0,
        s.left.contains(c),
    ensures
        s.seed(c).valid(),
        s.seed(c).in_order(),
        s.covers_board() ==> s.seed(c).covers_board(),
        s.leads_to(s.seed(c)),
        s.seed(c).hidden() == s.hidden(),
        s.seed(c).frontier.last() == c,
{
    let t = s.seed(c);
    assert(t.frontier[0] == c);
    assert forall|e: Coord| #[trigger] t.stacked.contains(e) implies t.frontier.contains(e)
        && !t.marked.contains(e) by {
        if e != c {
            assert(s.stacked.contains(e));
            assert(s.frontier.contains(e));
        }
    }
    assert forall|e: Coord| s.accounted().contains(e) implies #[trigger] t.accounted().contains(
        e,
    ) by {}
}

/// Opening a covered position leaves fewer positions hidden.
pub proof fn lemma_opened_shrinks(s: State, c: Coord)
    requires
        s.valid(),
        s.can_open(c),
        s.cells[c].content != Content::Mine,
    ensures
        s.open(c).hidden() < s.hidden(),
{
    lemma_open(s, c);
    let t = s.open(c);
    lemma_outside_shrinks(s.opened + s.marked, t.opened + t.marked, c, s.w, s.h);
}

/// Flagging a leading run of the frontier that is not empty leaves fewer
/// positions hidden.
pub proof fn lemma_flagged_shrinks(s: State, n: int)
    requires
        s.valid(),
        0 < n <= s.frontier.len(),
    ensures
        s.mark_obvious(n).hidden() < s.hidden(),
{
    lemma_mark_obvious(s, n);
    let t = s.mark_obvious(n);
    let c = s.frontier[0];
    assert(s.stacked.contains(s.frontier[0]));
    assert(s.frontier.take(n)[0] == c);
    assert(s.frontier.take(n).contains(c));
    lemma_outside_shrinks(s.opened + s.marked, t.opened + t.marked, c, s.w, s.h);
}

/// What holds after the next position has been taken: the state is valid,
/// the position can be opened, as many positions are hidden as before, and
/// where every position was accounted for, every one but the position
/// taken still is.
pub proof fn lemma_take_next(s: State)
    requires
        s.valid(),
    ensures
        match s.take_next() {
            None => s.frontier.len() == 0 && s.left == Set::<Coord>::empty(),
            Some((p, c)) => {
                &&& p.valid()
                &&& p.can_open(c)
                &&& p.hidden() == s.hidden()
                &&& p.hidden() > 0
                &&& s.leads_to(p)
                &&& s.covers_board() ==> forall|e: Coord|
                    p.on_board(e) && e != c ==> #[trigger] p.accounted().contains(e)
            },
        },
{
    if s.frontier.len() > 0 {
        let p = s.pop();
        let c = s.frontier.last();
        lemma_pop(s);
        if s.covers_board() {
            assert forall|e: Coord| p.on_board(e) && e != c implies #[trigger] p.accounted().contains(
                e,
            ) by {
                assert(s.accounted().contains(e));
            }
        }
        let known = p.opened + p.marked;
        lemma_outside_shrinks(known, known.insert(c), c, p.w, p.h);
    } else if s.left != Set::<Coord>::empty() {
        lemma_least_exists(s.left, s.h, s.w);
        let c = s.first_left();
        lemma_seed(s, c);
        let q = s.seed(c);
        lemma_pop(q);
        let p = q.pop();
        if s.covers_board() {
            assert forall|e: Coord| p.on_board(e) && e != c implies #[trigger] p.accounted().contains(
                e,
            ) by {
                assert(q.accounted().contains(e));
            }
        }
        let known = p.opened + p.marked;
        lemma_outside_shrinks(known, known.insert(c), c, p.w, p.h);
    }
}

/// Whether `c` is the first position of `set`, row by row.
pub open spec fn is_first(set: Set<Coord>, c: Coord) -> bool {
    set.contains(c) && forall|d: Coord| #[trigger] set.contains(d) ==> precedes(c, d)
}

/// Whether `c` comes before row `i`, column `j`.
pub open spec fn comes_before(c: Coord, i: int, j: int) -> bool {
    c.0 < i || (c.0 == i && c.1 < j)
}

/// Either the set has a first position before row `i`, column `j`, or it
/// has no position there at all.
proof fn lemma_first_before(set: Set<Coord>, w: usize, i: int, j: int)
    requires
        forall|c: Coord| #[trigger] set.contains(c) ==> c.1 < w,
        0 <= i,
        0 <= j <= w,
    ensures
        (exists|c: Coord| #[trigger] is_first(set, c) && comes_before(c, i, j)) || (forall|
            d: Coord,
        | #[trigger] set.contains(d) ==> !comes_before(d, i, j)),
    decreases i, j,
{
    if j > 0 {
        lemma_first_before(set, w, i, j - 1);
        if exists|c: Coord| #[trigger] is_first(set, c) && comes_before(c, i, j - 1) {
            let c = choose|c: Coord| #[trigger] is_first(set, c) && comes_before(c, i, j - 1);
            assert(is_first(set, c) && comes_before(c, i, j));
        } else {
            let y = (i as usize, (j - 1) as usize);
            if set.contains(y) {
                assert forall|d: Coord| #[trigger] set.contains(d) implies precedes(y, d) by {
                    assert(!comes_before(d, i, j - 1));
                }
                assert(is_first(set, y) && comes_before(y, i, j));
            } else {
                assert forall|d: Coord| #[trigger] set.contains(d) implies !comes_before(
                    d,
                    i,
                    j,
                ) by {
                    assert(!comes_before(d, i, j - 1));
                }
            }
        }
    } else if i > 0 {
        lemma_first_before(set, w, i - 1, w as int);
        if exists|c: Coord| #[trigger] is_first(set, c) && comes_before(c, i - 1, w as int) {
            let c = choose|c: Coord| #[trigger]
                is_first(set, c) && comes_before(c, i - 1, w as int);
            assert(is_first(set, c) && comes_before(c, i, j));
        } else {
            assert forall|d: Coord| #[trigger] set.contains(d) implies !comes_before(d, i, j) by {
                assert(!comes_before(d, i - 1, w as int));
            }
        }
    }
}

/// A set of positions of a grid that is not empty has a first position.
pub proof fn lemma_least_exists(set: Set<Coord>, h: usize, w: usize)
    requires
        set != Set::<Coord>::empty(),
        forall|c: Coord| #[trigger] set.contains(c) ==> c.0 < h && c.1 < w,
    ensures
        exists|c: Coord| is_first(set, c),
{
    assert(exists|x: Coord| set.contains(x)) by {
        if forall|x: Coord| !set.contains(x) {
            assert(set =~= Set::<Coord>::empty());
        }
    }
    let x = choose|x: Coord| set.contains(x);
    lemma_first_before(set, w, x.0 as int, x.1 + 1);
    assert(comes_before(x, x.0 as int, x.1 + 1));
}

/// Resolving what is obvious ends in a valid state of the same game with
/// no more positions hidden than before. If a mine was opened, it is a
/// covered mine of the board. If none was, every position that was
/// accounted for still is, the frontier is in order, its next position is
/// not certainly safe, and it holds no certain mine at its head.
pub proof fn lemma_settle(s: State)
    requires
        s.valid(),
    ensures
        s.settle().0.valid(),
        s.leads_to(s.settle().0),
        s.settle().0.hidden() <= s.hidden(),
        match s.settle().1 {
            Some(c) => {
                &&& s.settle().0.on_board(c)
                &&& s.settle().0.cells[c].content == Content::Mine
                &&& s.settle().0.covered(c)
            },
            None => {
                &&& s.covers_board() ==> s.settle().0.covers_board()
                &&& s.settle().0.in_order()
                &&& s.in_order() ==> !s.settle().0.next_safe() && s.settle().0.mine_run(0)
            },
        },
    decreases s.hidden(),
{
    lemma_run_from(s, 0);
    if s.next_safe() {
        let c = s.frontier.last();
        lemma_pop(s);
        let p = s.pop();
        if s.cells[c].content != Content::Mine {
            lemma_open(p, c);
            lemma_opened_shrinks(p, c);
            let t = p.open(c);
            lemma_settle(t);
            if s.covers_board() {
                assert forall|e: Coord| t.on_board(e) implies #[trigger] t.accounted().contains(
                    e,
                ) by {
                    assert(s.accounted().contains(e));
                    if e != c {
                        assert(p.accounted().contains(e));
                    }
                }
            }
        }
    } else if s.leading_mines() > 0 {
        let n = s.leading_mines();
        lemma_mark_obvious(s, n);
        lemma_flagged_shrinks(s, n);
        lemma_settle(s.mark_obvious(n));
    } else {
        lemma_mark_obvious(s, 0);
        lemma_quiet_once(s);
        if s.in_order() {
            crate::moves::lemma_sort_idempotent(s);
        }
    }
}

/// Play ends in a valid state of the same game. A game that ends without
/// a mine opened, from a state that accounted for every position, is won;
/// a game that ends on a mine ends on a covered mine of the board, after at
/// least one more turn.
pub proof fn lemma_play(s: State, turns: int)
    requires
        s.valid(),
    ensures
        s.play(turns).0.valid(),
        s.leads_to(s.play(turns).0),
        match s.play(turns).1 {
            Ok(n) => n >= turns && (s.covers_board() ==> s.play(turns).0.won()),
            Err((n, at)) => {
                &&& n > turns
                &&& s.play(turns).0.on_board(at)
                &&& s.play(turns).0.cells[at].content == Content::Mine
                &&& s.play(turns).0.covered(at)
            },
        },
    decreases s.hidden(),
{
    lemma_take_next(s);
    match s.take_next() {
        None => {
            if s.covers_board() {
                assert forall|c: Coord| s.on_board(c) implies #[trigger] s.opened.contains(c)
                    || s.marked.contains(c) by {
                    assert(s.accounted().contains(c));
                }
            }
        },
        Some((p, c)) => {
            if p.cells[c].content != Content::Mine {
                lemma_open(p, c);
                lemma_opened_shrinks(p, c);
                let t = p.open(c);
                lemma_settle(t);
                let (q, hit) = t.settle();
                if s.covers_board() {
                    assert forall|e: Coord| t.on_board(e) implies #[trigger] t.accounted().contains(
                        e,
                    ) by {
                        if e != c {
                            assert(p.accounted().contains(e));
                        }
                    }
                }
                if hit is None {
                    lemma_play(q, turns + 1);
                }
            }
        },
    }
}

/// No more positions are hidden than the board has.
pub proof fn lemma_hidden_bound(s: State)
    ensures
        s.hidden() <= s.h * s.w,
{
    lemma_outside_bound(s.opened + s.marked, s.w, s.h as int);
}

/// The first `i` rows hold at most `i` times the width positions outside a
/// set.
pub proof fn lemma_outside_bound(set: Set<Coord>, w: usize, i: int)
    requires
        0 <= i,
    ensures
        outside(set, w, i) <= i * w,
    decreases i,
{
    if i > 0 {
        lemma_outside_bound(set, w, i - 1);
        lemma_row_bound(set, (i - 1) as usize, w as int);
        assert(i * w == (i - 1) * w + w) by (nonlinear_arith);
    } else {
        assert(0 * w == 0) by (nonlinear_arith);
    }
}

/// The first `j` positions of a row hold at most `j` positions outside a
/// set.
pub proof fn lemma_row_bound(set: Set<Coord>, i: usize, j: int)
    requires
        0 <= j,
    ensures
        row_outside(set, i, j) <= j,
    decreases j,
{
    if j > 0 {
        lemma_row_bound(set, i, j - 1);
    }
}

impl Env {
    /// Whether nothing is pending and nothing is left: the game is over,
    /// and won if no mine was opened.
    pub fn is_done(&self) -> (b: bool)
        requires
            self.wf(),
        ensures
            b == (self@.frontier.len() == 0 && self@.left == Set::<Coord>::empty()),
            b && self@.covers_board() ==> self@.won(),
    {
        let b = self.stack.len() == 0 && self.left.is_empty();
        proof {
            if b && self@.covers_board() {
                assert forall|c: Coord| self@.on_board(c) implies #[trigger]
                    self@.opened.contains(c) || self@.marked.contains(c) by {
                    assert(self@.accounted().contains(c));
                }
            }
        }
        b
    }

    /// Puts the first position that is left on the empty frontier, so that
    /// play can go on from there; says which, or that none is left.
    pub fn reseed(&mut self) -> (r: Option<Coord>)
        requires
            old(self).wf(),
            old(self)@.frontier.len() == 0,
        ensures
            final(self).wf(),
            old(self)@.sound() ==> final(self)@.sound(),
            match r {
                None => old(self)@.left == Set::<Coord>::empty() && final(self)@ == old(self)@,
                Some(c) => {
                    &&& old(self)@.left != Set::<Coord>::empty()
                    &&& c == old(self)@.first_left()
                    &&& final(self)@ == old(self)@.seed(c)
                },
            },
    {
        match self.left.first() {
            None => None,
            Some(c) => {
                proof {
                    lemma_seed(self@, c);
                    assert(!self@.stacked.contains(c)) by {
                        if self@.stacked.contains(c) {
                            assert(self@.frontier.contains(c));
                        }
                    }
                    let f = self@.first_left();
                    assert(is_first(self@.left, c));
                    assert(is_first(self@.left, f));
                    assert(precedes(f, c) && precedes(c, f));
                    if self@.sound() {
                        crate::trust::lemma_seed_sound(self@, c);
                    }
                }
                self.stacked.insert(c);
                self.stack.push(c);
                assert(self@.cells =~= old(self)@.seed(c).cells);
                assert(self@ == old(self)@.seed(c));
                Some(c)
            },
        }
    }

    /// Resolves what is obvious: as long as the next position is certainly
    /// safe it is taken and opened, and else the certain mines at the head
    /// of the frontier are flagged, until neither applies. Fails with the
    /// position where a mine was opened.
    pub fn settle(&mut self) -> (r: Result<(), Coord>)
        requires
            old(self).wf(),
        ensures
            final(self).wf(),
            final(self)@ == old(self)@.settle().0,
            match r {
                Ok(_) => old(self)@.settle().1 == None::<Coord>,
                Err(c) => old(self)@.settle().1 == Some(c),
            },
            old(self)@.sound() ==> r is Ok && final(self)@.sound(),
    {
        proof {
            if self@.sound() {
                crate::trust::lemma_settle_sound(self@);
            }
        }
        loop
            invariant
                self.wf(),
                old(self)@.settle() == self@.settle(),
                old(self)@.sound() ==> old(self)@.settle().1 == None::<Coord>
                    && old(self)@.settle().0.sound(),
            decreases self@.hidden(),
        {
            let ghost before = self@;
            proof {
                lemma_run_from(before, 0);
            }
            let n = self.stack.len();
            let mut safe = false;
            if n > 0 {
                let c = self.stack[n - 1];
                assert(self@.on_board(self.stack@[n - 1]));
                safe = match self.m[c.0][c.1].score {
                    Score::Val(v) => v == 0,
                    _ => false,
                };
            }
            assert(safe == before.next_safe());
            if safe {
                let c = self.stack[n - 1];
                let _ = self.pop();
                proof {
                    lemma_pop(before);
                }
                let ghost popped = self@;
                match self.open(c) {
                    Err(_) => {
                        return Err(c);
                    },
                    Ok(_) => {
                        proof {
                            lemma_opened_shrinks(popped, c);
                        }
                    },
                }
            } else {
                let marked = self.mark_obvious();
                proof {
                    lemma_mine_run_unique(before, marked as int);
                    if marked > 0 {
                        lemma_flagged_shrinks(before, marked as int);
                    }
                }
                if marked == 0 {
                    return Ok(());
                }
            }
        }
    }

    /// Plays until the game is won or a mine is opened, and returns the
    /// number of turns that the win took, or the defeat. A turn takes the
    /// next position of the frontier, or the first one that is left when
    /// the frontier is empty, opens it, and resolves what is obvious.
    pub fn play_game(&mut self) -> (r: Result<usize, Defeat>)
        requires
            old(self).wf(),
            old(self)@.h * old(self)@.w <= usize::MAX,
        ensures
            final(self).wf(),
            final(self)@ == old(self)@.play(0).0,
            match r {
                Ok(turns) => old(self)@.play(0).1 == Ok::<int, (int, Coord)>(turns as int),
                Err(defeat) => old(self)@.play(0).1 == Err::<int, (int, Coord)>(
                    (defeat.turns as int, defeat.at),
                ),
            },
            old(self)@.covers_board() && r is Ok ==> final(self)@.won(),
            old(self)@.sound() ==> final(self)@.sound(),
            old(self)@.sound() && old(self)@.covers_board() && r is Ok ==> final(self)@.marked
                == old(self)@.mines(),
    {
        let mut turns: usize = 0;
        proof {
            lemma_hidden_bound(self@);
            lemma_play(self@, 0);
            if self@.sound() {
                crate::trust::lemma_play_sound(self@, 0);
            }
        }
        loop
            invariant
                self.wf(),
                old(self)@.play(0) == self@.play(turns as int),
                old(self)@.covers_board() && old(self)@.play(0).1 is Ok ==> old(self)@.play(
                    0,
                ).0.won(),
                old(self)@.sound() ==> old(self)@.play(0).0.sound(),
                old(self)@.sound() && old(self)@.covers_board() && old(self)@.play(0).1 is Ok
                    ==> old(self)@.play(0).0.marked == old(self)@.mines(),
                turns + self@.hidden() <= usize::MAX,
            decreases self@.hidden(),
        {
            let ghost before = self@;
            proof {
                lemma_take_next(before);
            }
            let next = match self.pop() {
                Some(c) => Some(c),
                None => match self.reseed() {
                    None => None,
                    Some(_) => self.pop(),
                },
            };
            match next {
                None => {
                    return Ok(turns);
                },
                Some(c) => {
                    let ghost popped = self@;
                    assert(before.take_next() == Some((popped, c)));
                    turns = turns + 1;
                    match self.open(c) {
                        Err(_) => {
                            return Err(Defeat { turns, at: c });
                        },
                        Ok(_) => {
                            proof {
                                lemma_open(popped, c);
                                lemma_opened_shrinks(popped, c);
                                lemma_settle(popped.open(c));
                            }
                        },
                    }
                    match self.settle() {
                        Err(at) => {
                            return Err(Defeat { turns, at });
                        },
                        Ok(_) => {},
                    }
                },
            }
        }
    }
}

} // verus!
