//! Taking a position from the frontier and flagging positions, as steps on
//! the state, with what they keep.

use crate::cell::Coord;
use crate::frontier::{lemma_ranked_fixed, lemma_sorted};
use crate::model::{lemma_propagate_all, State};
use crate::score::Score;
use crate::seqs::{lemma_filter_members, lemma_filter_no_duplicates, lemma_take_members};
use vstd::prelude::*;

verus! {

/// The test for the positions other than `c`.
pub open spec fn differs(c: Coord) -> spec_fn(Coord) -> bool {
    |d: Coord| d != c
}

impl State {
    /// The state after the last position of the frontier has been taken in
    /// hand: it leaves the frontier and the positions left.
    pub open spec fn pop(self) -> State {
        let c = self.frontier.last();
        State {
            frontier: self.frontier.drop_last(),
            stacked: self.stacked.remove(c),
            left: self.left.remove(c),
            ..self
        }
    }

    /// The state after `c` has got its flag, before anyone reacts to it.
    pub open spec fn flag(self, c: Coord) -> State {
        State {
            marked: self.marked.insert(c),
            left: self.left.remove(c),
            stacked: self.stacked.remove(c),
            ..self
        }
    }

    /// The state after `c` has been flagged and each opened neighbour of `c`
    /// has refreshed its contribution; `c` keeps its place in the frontier.
    pub open spec fn mark_core(self, c: Coord) -> State {
        let s = self.flag(c);
        s.propagate_all(s.opened_around(c))
    }

    /// The state after `c` has been flagged: as `mark_core`, and `c` leaves
    /// the frontier.
    pub open spec fn mark(self, c: Coord) -> State {
        let s = self.mark_core(c);
        State { frontier: s.frontier.filter(differs(c)), ..s }
    }

    /// The state after each of `cs` has been flagged, one after the other.
    pub open spec fn mark_each(self, cs: Seq<Coord>) -> State
        decreases cs.len(),
    {
        if cs.len() == 0 {
            self
        } else {
            self.mark_each(cs.drop_last()).mark_core(cs.last())
        }
    }

    /// Whether the first `n` positions of the frontier are the leading run
    /// of certain mines: each of them has the score `Mine`, and the next
    /// one, if there is one, has not.
    pub open spec fn mine_run(self, n: int) -> bool {
        &&& 0 <= n <= self.frontier.len()
        &&& forall|i: int| 0 <= i < n ==> self.score_at(#[trigger] self.frontier[i]) == Score::Mine
        &&& n < self.frontier.len() ==> self.score_at(self.frontier[n]) != Score::Mine
    }

    /// The state after the first `n` positions of the frontier have been
    /// flagged in turn, taken off the frontier together, and the rest
    /// ranked.
    pub open spec fn mark_obvious(self, n: int) -> State {
        let s = self.mark_each(self.frontier.take(n));
        State { frontier: s.frontier.skip(n), ..s }.sorted()
    }

    /// Every position that is opened, flagged, left, or on the frontier.
    pub open spec fn accounted(self) -> Set<Coord> {
        self.opened + self.marked + self.left + self.frontier.to_set()
    }

    /// Whether every position of the board is opened, flagged, left, or on
    /// the frontier.
    pub open spec fn covers_board(self) -> bool {
        forall|c: Coord| self.on_board(c) ==> #[trigger] self.accounted().contains(c)
    }
}

/// Taking the last position of the frontier keeps a state valid and its
/// frontier in order; the position taken is on the board, neither opened
/// nor flagged, and only it leaves the account.
pub proof fn lemma_pop(s: State)
    requires
        s.valid(),
        s.frontier.len() > 0,
    ensures
        s.pop().valid(),
        s.in_order() ==> s.pop().in_order(),
        s.same_ground(State { left: s.left, ..s.pop() }),
        s.on_board(s.frontier.last()),
        s.covered(s.frontier.last()),
        !s.pop().accounted().contains(s.frontier.last()),
        forall|c: Coord|
            c != s.frontier.last() ==> (#[trigger] s.pop().accounted().contains(c)
                <==> s.accounted().contains(c)),
{
    let t = s.pop();
    let c = s.frontier.last();
    let n = s.frontier.len() - 1;
    assert(s.frontier[n] == c);
    assert(s.stacked.contains(s.frontier[n]));
    assert forall|i: int| 0 <= i < t.frontier.len() implies t.frontier[i] != c by {
        assert(s.frontier[i] != s.frontier[n]);
    }
    assert forall|e: Coord| #[trigger] t.stacked.contains(e) implies t.frontier.contains(e)
        && !t.marked.contains(e) by {
        assert(s.stacked.contains(e));
        let k = choose|k: int| 0 <= k < s.frontier.len() && s.frontier[k] == e;
        assert(t.frontier[k] == e);
    }
    assert forall|i: int| 0 <= i < t.frontier.len() implies {
        let e = #[trigger] t.frontier[i];
        &&& t.on_board(e)
        &&& !t.opened.contains(e)
        &&& t.stacked.contains(e)
    } by {
        assert(t.frontier[i] == s.frontier[i]);
    }
    if s.in_order() {
        assert(t.rank_key() == s.rank_key());
        assert forall|i: int, j: int| 0 <= i < j < t.frontier.len() implies (t.rank_key())(
            #[trigger] t.frontier[i],
        ) >= (t.rank_key())(#[trigger] t.frontier[j]) by {
            assert(t.frontier[i] == s.frontier[i] && t.frontier[j] == s.frontier[j]);
        }
    }
    assert(!t.frontier.contains(c));
    assert forall|e: Coord| e != c implies (#[trigger] t.accounted().contains(e)
        <==> s.accounted().contains(e)) by {
        if s.frontier.contains(e) {
            let k = choose|k: int| 0 <= k < s.frontier.len() && s.frontier[k] == e;
            assert(t.frontier[k] == e);
        }
        if t.frontier.contains(e) {
            let k = choose|k: int| 0 <= k < t.frontier.len() && t.frontier[k] == e;
            assert(s.frontier[k] == e);
        }
    }
}

/// Flagging a position of the board that is not opened keeps a state
/// coherent.
pub proof fn lemma_flag(s: State, c: Coord)
    requires
        s.coherent(),
        s.on_board(c),
        !s.opened.contains(c),
    ensures
        s.flag(c).coherent(),
{
}

/// Flagging with the neighbours' reaction keeps a state coherent. It adds
/// the position to the flagged ones and takes it from those left; the
/// frontier keeps what it held and may get more behind it.
pub proof fn lemma_mark_core(s: State, c: Coord)
    requires
        s.coherent(),
        s.on_board(c),
        !s.opened.contains(c),
    ensures
        s.mark_core(c).coherent(),
        s.flag(c).same_ground(s.mark_core(c)),
        s.flag(c).extends_to(s.mark_core(c)),
{
    lemma_flag(s, c);
    let f = s.flag(c);
    lemma_propagate_all(f, f.opened_around(c));
}

/// Flagging a position of the board that is not opened keeps a state
/// valid; the position is then flagged, and neither left nor on the
/// frontier.
pub proof fn lemma_mark(s: State, c: Coord)
    requires
        s.valid(),
        s.on_board(c),
        !s.opened.contains(c),
    ensures
        s.mark(c).valid(),
        s.flag(c).same_ground(s.mark(c)),
        !s.mark(c).frontier.contains(c),
        forall|e: Coord| s.accounted().contains(e) ==> #[trigger] s.mark(c).accounted().contains(e),
        s.mark(c).accounted().contains(c),
{
    lemma_mark_core(s, c);
    let f = s.flag(c);
    let m = s.mark_core(c);
    let t = s.mark(c);
    lemma_filter_members(m.frontier, differs(c));
    lemma_filter_no_duplicates(m.frontier, differs(c));
    assert(!m.stacked.contains(c));
    assert forall|i: int| 0 <= i < m.frontier.len() && m.frontier[i] != c implies m.stacked.contains(
        #[trigger] m.frontier[i],
    ) by {
        if i < s.frontier.len() {
            assert(m.frontier[i] == f.frontier[i]);
            assert(s.stacked.contains(s.frontier[i]));
            assert(f.stacked.contains(s.frontier[i]));
        }
    }
    assert forall|i: int| 0 <= i < t.frontier.len() implies {
        let e = #[trigger] t.frontier[i];
        &&& t.on_board(e)
        &&& !t.opened.contains(e)
        &&& t.stacked.contains(e)
    } by {
        let e = t.frontier[i];
        assert(t.frontier.contains(e));
        assert(m.frontier.contains(e));
        let k = choose|k: int| 0 <= k < m.frontier.len() && m.frontier[k] == e;
        assert(m.frontier[k] == e);
    }
    assert forall|e: Coord| #[trigger] t.stacked.contains(e) implies t.frontier.contains(e)
        && !t.marked.contains(e) by {
        assert(m.frontier.contains(e));
    }
    assert forall|e: Coord| s.accounted().contains(e) implies #[trigger] t.accounted().contains(
        e,
    ) by {
        if s.frontier.contains(e) && e != c {
            let k = choose|k: int| 0 <= k < s.frontier.len() && s.frontier[k] == e;
            assert(m.frontier[k] == f.frontier[k]);
            assert(m.frontier.contains(e));
            assert(t.frontier.contains(e));
        }
    }
}

/// What holds after the first `k` positions of the frontier of a valid
/// state have been flagged in turn: the state is coherent, the flags are
/// those from before and these `k`, and behind the first `k` positions the
/// frontier holds no flagged one.
pub proof fn lemma_mark_each(s: State, k: int)
    requires
        s.valid(),
        0 <= k <= s.frontier.len(),
    ensures
        ({
            let t = s.mark_each(s.frontier.take(k));
            &&& t.coherent()
            &&& t.h == s.h && t.w == s.w && t.opened == s.opened
            &&& t.cells.dom() == s.cells.dom()
            &&& forall|c: Coord| (#[trigger] t.cells[c]).content == s.cells[c].content
            &&& t.marked == s.marked + s.frontier.take(k).to_set()
            &&& t.left == s.left - s.frontier.take(k).to_set()
            &&& s.frontier.len() <= t.frontier.len()
            &&& forall|i: int|
                0 <= i < s.frontier.len() ==> #[trigger] t.frontier[i] == s.frontier[i]
            &&& forall|i: int|
                k <= i < t.frontier.len() ==> t.stacked.contains(#[trigger] t.frontier[i])
        }),
    decreases k,
{
    if k == 0 {
        assert(s.frontier.take(0).len() == 0);
        let t = s.mark_each(s.frontier.take(0));
        assert(t == s);
        assert(t.marked =~= s.marked + s.frontier.take(k).to_set());
        assert(t.left =~= s.left - s.frontier.take(k).to_set());
    } else {
        let run = s.frontier.take(k);
        let c = s.frontier[k - 1];
        assert(run.drop_last() == s.frontier.take(k - 1));
        assert(run.last() == c);
        lemma_mark_each(s, k - 1);
        let p = s.mark_each(s.frontier.take(k - 1));
        assert(p.frontier[k - 1] == c);
        lemma_mark_core(p, c);
        let f = p.flag(c);
        let t = p.mark_core(c);
        assert(t == s.mark_each(run));
        lemma_take_members(s.frontier, k);
        assert forall|e: Coord| (#[trigger] t.cells[e]).content == s.cells[e].content by {
            assert(f.cells[e].content == t.cells[e].content);
            assert(p.cells[e].content == s.cells[e].content);
        }
        assert(t.marked =~= s.marked + run.to_set());
        assert(t.left =~= s.left - run.to_set());
        assert forall|i: int| 0 <= i < s.frontier.len() implies #[trigger] t.frontier[i]
            == s.frontier[i] by {
            assert(t.frontier[i] == f.frontier[i]);
            assert(p.frontier[i] == s.frontier[i]);
        }
        assert forall|i: int| k <= i < t.frontier.len() implies t.stacked.contains(
            #[trigger] t.frontier[i],
        ) by {
            if i < p.frontier.len() {
                assert(t.frontier[i] == f.frontier[i]);
                assert(p.stacked.contains(p.frontier[i]));
                assert(p.frontier[i] != p.frontier[k - 1]);
                assert(f.stacked.contains(p.frontier[i]));
            }
        }
    }
}

/// After the first `n` positions of the frontier of a valid state have been
/// flagged in turn, the state without them on the frontier is valid.
pub proof fn lemma_skipped_run_valid(s: State, n: int)
    requires
        s.valid(),
        0 <= n <= s.frontier.len(),
    ensures
        ({
            let m = s.mark_each(s.frontier.take(n));
            State { frontier: m.frontier.skip(n), ..m }.valid()
        }),
{
    lemma_mark_each(s, n);
    let m = s.mark_each(s.frontier.take(n));
    let d = State { frontier: m.frontier.skip(n), ..m };
    assert(d.frontier.no_duplicates()) by {
        assert forall|a: int, b: int|
            0 <= a < d.frontier.len() && 0 <= b < d.frontier.len() && a != b implies d.frontier[a]
            != d.frontier[b] by {
            assert(d.frontier[a] == m.frontier[a + n] && d.frontier[b] == m.frontier[b + n]);
        }
    }
    assert forall|i: int| 0 <= i < d.frontier.len() implies {
        let e = #[trigger] d.frontier[i];
        &&& d.on_board(e)
        &&& !d.opened.contains(e)
        &&& d.stacked.contains(e)
    } by {
        assert(d.frontier[i] == m.frontier[i + n]);
    }
    assert forall|e: Coord| #[trigger] d.stacked.contains(e) implies d.frontier.contains(e)
        && !d.marked.contains(e) by {
        assert(m.frontier.contains(e));
        let k = choose|k: int| 0 <= k < m.frontier.len() && m.frontier[k] == e;
        if k < n {
            assert(m.frontier[k] == s.frontier[k]);
            assert(s.frontier.take(n)[k] == e);
            assert(s.frontier.take(n).contains(e));
            assert(m.marked.contains(e));
        } else {
            assert(d.frontier[k - n] == e);
        }
    }
}

/// Flagging the first `n` positions of the frontier, taking them off and
/// ranking the rest keeps a state valid and leaves its frontier in order.
/// The flags are those from before and these `n`; nothing is opened.
pub proof fn lemma_mark_obvious(s: State, n: int)
    requires
        s.valid(),
        0 <= n <= s.frontier.len(),
    ensures
        s.mark_obvious(n).valid(),
        s.mark_obvious(n).in_order(),
        s.mark_obvious(n).h == s.h,
        s.mark_obvious(n).w == s.w,
        s.mark_obvious(n).opened == s.opened,
        s.mark_obvious(n).marked == s.marked + s.frontier.take(n).to_set(),
        s.mark_obvious(n).left == s.left - s.frontier.take(n).to_set(),
        s.mark_obvious(n).cells.dom() == s.cells.dom(),
        forall|c: Coord| (#[trigger] s.mark_obvious(n).cells[c]).content == s.cells[c].content,
        forall|i: int|
            0 <= i < n ==> !s.mark_obvious(n).frontier.contains(#[trigger] s.frontier[i]),
        forall|e: Coord| s.accounted().contains(e) ==> #[trigger] s.mark_obvious(n).accounted().contains(e),
{
    lemma_mark_each(s, n);
    let m = s.mark_each(s.frontier.take(n));
    let d = State { frontier: m.frontier.skip(n), ..m };
    lemma_skipped_run_valid(s, n);
    assert(d.valid());
    lemma_sorted(d);
    let t = s.mark_obvious(n);
    assert(t == d.sorted());
    assert forall|i: int| 0 <= i < n implies !t.frontier.contains(#[trigger] s.frontier[i]) by {
        let e = s.frontier[i];
        if t.frontier.contains(e) {
            assert(t.frontier.to_set().contains(e));
            assert(d.frontier.contains(e));
            let k = choose|k: int| 0 <= k < d.frontier.len() && d.frontier[k] == e;
            assert(m.frontier[k + n] == e);
            assert(m.frontier[i] == e);
        }
    }
    assert forall|e: Coord| s.accounted().contains(e) implies #[trigger] t.accounted().contains(
        e,
    ) by {
        if s.frontier.contains(e) {
            let k = choose|k: int| 0 <= k < s.frontier.len() && s.frontier[k] == e;
            assert(m.frontier[k] == e);
            if k < n {
                assert(s.frontier.take(n)[k] == e);
                assert(s.frontier.take(n).contains(e));
            } else {
                assert(d.frontier[k - n] == e);
                assert(d.frontier.to_set().contains(e));
                assert(t.frontier.contains(e));
            }
        }
    }
}

/// Where the frontier is in order, the leading run of certain mines holds
/// every position of the frontier whose score is `Mine`.
pub proof fn lemma_run_holds_all_mines(s: State, n: int)
    requires
        s.in_order(),
        s.mine_run(n),
    ensures
        forall|i: int|
            n <= i < s.frontier.len() ==> s.score_at(#[trigger] s.frontier[i]) != Score::Mine,
{
    assert forall|i: int| n <= i < s.frontier.len() implies s.score_at(#[trigger] s.frontier[i])
        != Score::Mine by {
        if i > n {
            assert((s.rank_key())(s.frontier[n]) >= (s.rank_key())(s.frontier[i]));
        }
    }
}

/// Once the frontier is in order, one round of flagging moves every
/// position with the score `Mine` from the frontier to the flagged ones.
pub proof fn lemma_mines_drained(s: State, n: int)
    requires
        s.valid(),
        s.in_order(),
        s.mine_run(n),
    ensures
        forall|c: Coord|
            s.frontier.contains(c) && s.score_at(c) == Score::Mine ==> (#[trigger] s.mark_obvious(
                n,
            ).marked.contains(c)) && !s.mark_obvious(n).frontier.contains(c),
{
    lemma_run_holds_all_mines(s, n);
    lemma_mark_obvious(s, n);
    let t = s.mark_obvious(n);
    assert forall|c: Coord| s.frontier.contains(c) && s.score_at(c) == Score::Mine implies (
    #[trigger] t.marked.contains(c)) && !t.frontier.contains(c) by {
        let k = choose|k: int| 0 <= k < s.frontier.len() && s.frontier[k] == c;
        assert(s.frontier[k] == c);
        assert(k < n);
        assert(s.frontier.take(n)[k] == c);
        assert(s.frontier.take(n).contains(c));
    }
}

/// A round of flagging that finds no leading mine only ranks the frontier:
/// the state stays valid, nothing is opened or flagged, and every position
/// that was accounted for still is.
pub proof fn lemma_quiet_once(s: State)
    requires
        s.valid(),
    ensures
        s.mark_obvious(0) == s.sorted(),
        s.mark_obvious(0).opened == s.opened,
        s.mark_obvious(0).marked == s.marked,
        s.mark_obvious(0).left == s.left,
{
    assert(s.frontier.take(0).len() == 0);
    assert(s.mark_each(s.frontier.take(0)) == s);
    assert(s.frontier.skip(0) == s.frontier);
}

/// A round of flagging that finds no leading mine only ranks the frontier.
/// When two rounds in a row find none, no position of the frontier has the
/// score `Mine`.
pub proof fn lemma_quiet_twice(s: State)
    requires
        s.valid(),
        s.mine_run(0),
        s.mark_obvious(0).mine_run(0),
    ensures
        s.mark_obvious(0) == s.sorted(),
        s.mark_obvious(0).mark_obvious(0) == s.mark_obvious(0),
        forall|i: int|
            0 <= i < s.mark_obvious(0).frontier.len() ==> s.mark_obvious(0).score_at(
                #[trigger] s.mark_obvious(0).frontier[i],
            ) != Score::Mine,
{
    assert(s.frontier.take(0).len() == 0);
    assert(s.mark_each(s.frontier.take(0)) == s);
    assert(s.frontier.skip(0) == s.frontier);
    let t = s.mark_obvious(0);
    assert(t == s.sorted());
    lemma_sorted(s);
    lemma_run_holds_all_mines(t, 0);
    assert(t.frontier.take(0).len() == 0);
    assert(t.mark_each(t.frontier.take(0)) == t);
    assert(t.frontier.skip(0) == t.frontier);
    lemma_ranked_fixed(t.frontier, t.rank_key());
    assert(t.mark_obvious(0) == t);
}

/// Ranking a frontier that is in order changes nothing: ranking twice in a
/// row gives the same frontier both times.
pub proof fn lemma_sort_idempotent(s: State)
    requires
        s.coherent(),
    ensures
        s.sorted().sorted() == s.sorted(),
        s.in_order() ==> s.sorted() == s,
{
    lemma_sorted(s);
    let t = s.sorted();
    assert(t.rank_key() == s.rank_key());
    lemma_ranked_fixed(t.frontier, t.rank_key());
    if s.in_order() {
        lemma_ranked_fixed(s.frontier, s.rank_key());
    }
}

} // verus!
