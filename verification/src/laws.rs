//! What holds of every game: the three sets that divide the board never
//! overlap, and no position is lost track of.

use crate::cell::{Content, Coord};
use crate::flood::lemma_open;
use crate::frontier::lemma_sorted;
use crate::game::lemma_seed;
use crate::model::{lemma_propagate, State};
use crate::moves::{lemma_mark, lemma_mark_obvious, lemma_pop};
use vstd::prelude::*;

verus! {

/// In a valid state the opened, the flagged and the left positions are
/// pairwise disjoint, all of them lie on the board, and the frontier holds
/// each of its positions once, none of them opened or flagged.
pub proof fn lemma_partition(s: State)
    requires
        s.valid(),
    ensures
        s.opened.disjoint(s.marked),
        s.opened.disjoint(s.left),
        s.marked.disjoint(s.left),
        forall|c: Coord| #[trigger] s.accounted().contains(c) ==> s.on_board(c),
        s.frontier.no_duplicates(),
        forall|c: Coord| #[trigger]
            s.frontier.contains(c) ==> !s.opened.contains(c) && !s.marked.contains(c),
{
    assert forall|c: Coord| #[trigger] s.frontier.contains(c) implies s.on_board(c)
        && !s.opened.contains(c) && !s.marked.contains(c) by {
        let i = choose|i: int| 0 <= i < s.frontier.len() && s.frontier[i] == c;
        assert(s.stacked.contains(s.frontier[i]));
    }
}

/// Opening a position keeps the state valid and every position accounted
/// for. It is enough that every position but the one to open was accounted
/// for before, as it is after that position was taken from the frontier.
pub proof fn lemma_open_keeps_account(s: State, c: Coord)
    requires
        s.valid(),
        s.can_open(c),
        s.cells[c].content != Content::Mine,
        forall|e: Coord| s.on_board(e) && e != c ==> #[trigger] s.accounted().contains(e),
    ensures
        s.open(c).valid(),
        s.open(c).covers_board(),
{
    lemma_open(s, c);
}

/// Taking the next position from the frontier keeps the state valid; the
/// position taken is then in none of the sets, and every other position is
/// accounted for as before.
pub proof fn lemma_pop_keeps_account(s: State)
    requires
        s.valid(),
        s.covers_board(),
        s.frontier.len() > 0,
    ensures
        s.pop().valid(),
        !s.pop().accounted().contains(s.frontier.last()),
        forall|e: Coord|
            s.on_board(e) && e != s.frontier.last() ==> #[trigger] s.pop().accounted().contains(e),
{
    lemma_pop(s);
    assert forall|e: Coord| s.on_board(e) && e != s.frontier.last() implies #[trigger] s.pop().accounted().contains(
        e,
    ) by {
        assert(s.accounted().contains(e));
    }
}

/// Flagging a position keeps the state valid and every position accounted
/// for.
pub proof fn lemma_mark_keeps_account(s: State, c: Coord)
    requires
        s.valid(),
        s.covers_board(),
        s.on_board(c),
        !s.opened.contains(c),
    ensures
        s.mark(c).valid(),
        s.mark(c).covers_board(),
{
    lemma_mark(s, c);
    assert forall|e: Coord| s.mark(c).on_board(e) implies #[trigger] s.mark(c).accounted().contains(
        e,
    ) by {
        assert(s.accounted().contains(e));
    }
}

/// Flagging the leading run of the frontier keeps the state valid and
/// every position accounted for.
pub proof fn lemma_mark_obvious_keeps_account(s: State, n: int)
    requires
        s.valid(),
        s.covers_board(),
        0 <= n <= s.frontier.len(),
    ensures
        s.mark_obvious(n).valid(),
        s.mark_obvious(n).covers_board(),
{
    lemma_mark_obvious(s, n);
    assert forall|e: Coord| s.mark_obvious(n).on_board(e) implies #[trigger] s.mark_obvious(
        n,
    ).accounted().contains(e) by {
        assert(s.accounted().contains(e));
    }
}

/// Ranking the frontier keeps the state valid and every position accounted
/// for.
pub proof fn lemma_sort_keeps_account(s: State)
    requires
        s.valid(),
        s.covers_board(),
    ensures
        s.sorted().valid(),
        s.sorted().covers_board(),
{
    lemma_sorted(s);
    assert forall|e: Coord| s.sorted().on_board(e) implies #[trigger] s.sorted().accounted().contains(
        e,
    ) by {
        assert(s.accounted().contains(e));
    }
}

/// Score propagation keeps the state valid and every position accounted
/// for.
pub proof fn lemma_propagate_keeps_account(s: State, c: Coord)
    requires
        s.valid(),
        s.covers_board(),
    ensures
        s.propagate(c).valid(),
        s.propagate(c).covers_board(),
{
    lemma_propagate(s, c);
    let t = s.propagate(c);
    assert forall|e: Coord| t.on_board(e) implies #[trigger] t.accounted().contains(e) by {
        assert(s.accounted().contains(e));
        if s.frontier.contains(e) {
            let k = choose|k: int| 0 <= k < s.frontier.len() && s.frontier[k] == e;
            assert(t.frontier[k] == e);
        }
    }
}

/// Putting a position that is left on the empty frontier keeps the state
/// valid and every position accounted for.
pub proof fn lemma_seed_keeps_account(s: State, c: Coord)
    requires
        s.valid(),
        s.covers_board(),
        s.frontier.len() == 0,
        s.left.contains(c),
    ensures
        s.seed(c).valid(),
        s.seed(c).covers_board(),
{
    lemma_seed(s, c);
}

} // verus!
