//! Setting a game up: drawing the mines, and the environment at the start
//! of play.

use crate::board::{is_candidate, laid, lay_mines, mine_capacity, start_of};
use crate::cell::{Content, Coord, Note};
use crate::coords::CoordSet;
use crate::env::Env;
use crate::grid::in_grid;
use crate::model::{CellView, State};
use crate::seqs::lemma_push_no_duplicates;
use vstd::prelude::*;

verus! {

impl State {
    /// The state at the start of play on the board with the given mines:
    /// nothing is opened or flagged, the start is alone on the frontier,
    /// and every other position is left.
    pub open spec fn initial(h: usize, w: usize, mines: Set<Coord>) -> State {
        State {
            h,
            w,
            cells: Map::new(
                |c: Coord| in_grid(h, w, c),
                |c: Coord| CellView { content: laid(mines, h, w, c), notes: Seq::<Note>::empty() },
            ),
            opened: Set::<Coord>::empty(),
            left: Set::new(|c: Coord| in_grid(h, w, c) && c != start_of(h, w)),
            marked: Set::<Coord>::empty(),
            frontier: Seq::<Coord>::empty().push(start_of(h, w)),
            stacked: Set::<Coord>::empty().insert(start_of(h, w)),
        }
    }

    /// The positions of the board that hide a mine.
    pub open spec fn mines(self) -> Set<Coord> {
        Set::new(|c: Coord| self.on_board(c) && self.cells[c].content == Content::Mine)
    }
}

/// The state at the start of play is valid, accounts for every position of
/// the board, and has its frontier in order; its mines are the given ones.
pub proof fn lemma_initial(h: usize, w: usize, mines: Set<Coord>)
    requires
        h >= 1,
        w >= 1,
    ensures
        State::initial(h, w, mines).valid(),
        State::initial(h, w, mines).covers_board(),
        State::initial(h, w, mines).in_order(),
        (forall|c: Coord| mines.contains(c) ==> in_grid(h, w, c)) ==> State::initial(
            h,
            w,
            mines,
        ).mines() == mines,
{
    let s = State::initial(h, w, mines);
    assert(s.frontier[0] == start_of(h, w));
    assert forall|c: Coord| #[trigger] s.stacked.contains(c) implies s.frontier.contains(c) by {
        assert(s.frontier[0] == c);
    }
    assert forall|c: Coord| s.on_board(c) implies #[trigger] s.accounted().contains(c) by {
        if c == start_of(h, w) {
            assert(s.frontier[0] == c);
            assert(s.frontier.to_set().contains(c));
        } else {
            assert(s.left.contains(c));
        }
    }
    if forall|c: Coord| mines.contains(c) ==> in_grid(h, w, c) {
        assert(s.mines() =~= mines);
    }
}

/// The largest number of mines that can be drawn on a board of `h` rows
/// and `w` columns, if there is such a board: one with a row, a column, and
/// a number of positions that the machine can count.
pub fn room_for_mines(h: usize, w: usize) -> (r: Option<usize>)
    ensures
        match r {
            Some(n) => h >= 1 && w >= 1 && h * w <= usize::MAX && n == mine_capacity(h, w),
            None => h == 0 || w == 0 || h * w > usize::MAX,
        },
{
    if h == 0 || w == 0 {
        return None;
    }
    match h.checked_mul(w) {
        None => None,
        Some(cells) => {
            let zone: usize = if h >= 2 && w >= 2 {
                4
            } else if h >= 2 || w >= 2 {
                2
            } else {
                1
            };
            assert(cells >= zone) by (nonlinear_arith)
                requires
                    cells == h * w,
                    h >= 1,
                    w >= 1,
                    zone == (if h >= 2 && w >= 2 {
                        4int
                    } else if h >= 2 || w >= 2 {
                        2int
                    } else {
                        1int
                    }),
            ;
            Some(cells - zone)
        },
    }
}

/// The positions where a mine may be drawn, row by row.
fn candidates(h: usize, w: usize) -> (v: Vec<Coord>)
    requires
        h >= 1,
        w >= 1,
        h * w <= usize::MAX,
    ensures
        v@.no_duplicates(),
        forall|c: Coord| #[trigger] v@.contains(c) <==> is_candidate(h, w, c),
        v.len() == mine_capacity(h, w),
{
    let mut v: Vec<Coord> = Vec::new();
    let mut i: usize = 0;
    let ghost zone_w: int = if w >= 2 { 2 } else { 1 };
    let ghost zone_h: int = if h >= 2 { 2 } else { 1 };
    assert(0 * w == 0) by (nonlinear_arith);
    while i < h
        invariant
            i <= h,
            h >= 1,
            w >= 1,
            h * w <= usize::MAX,
            zone_w == (if w >= 2 { 2int } else { 1int }),
            zone_h == (if h >= 2 { 2int } else { 1int }),
            v@.no_duplicates(),
            forall|c: Coord| #[trigger] v@.contains(c) <==> (is_candidate(h, w, c) && c.0 < i),
            v.len() == i * w - zone_w * (if i + zone_h > h { i + zone_h - h } else { 0 }),
        decreases h - i,
    {
        let mut j: usize = 0;
        let near_row = h - i <= 2;
        let ghost before = v.len() as int;
        while j < w
            invariant
                j <= w,
                i < h,
                h >= 1,
                w >= 1,
                near_row == (h - i <= 2),
                zone_w == (if w >= 2 { 2int } else { 1int }),
                v@.no_duplicates(),
                forall|c: Coord| #[trigger]
                    v@.contains(c) <==> (is_candidate(h, w, c) && (c.0 < i || (c.0 == i && c.1
                        < j))),
                v.len() == before + j - (if near_row && j + zone_w > w { j + zone_w - w } else { 0 }),
                before <= i * w,
            decreases w - j,
        {
            let near = near_row && w - j <= 2;
            assert(near == crate::board::in_safe_zone(h, w, (i, j)));
            if !near {
                proof {
                    lemma_push_no_duplicates(v@, (i, j));
                    crate::seqs::lemma_push_members(v@, (i, j));
                }
                assert(v.len() < i * w + w);
                assert(i * w + w <= h * w) by (nonlinear_arith)
                    requires
                        i < h,
                ;
                v.push((i, j));
            }
            j += 1;
        }
        assert((i + 1) * w == i * w + w) by (nonlinear_arith);
        i += 1;
    }
    v
}

/// Shuffles the positions with `rand::seq::SliceRandom::shuffle`, driven by
/// the generator that `rand::thread_rng` hands out. The call only swaps
/// elements of the slice, so the vector holds afterwards what it held
/// before, each position as often as before; nothing is said of the order.
/// `thread_rng` panics where the system gives it no entropy to start from.
#[verifier::external_body]
fn shuffle(v: &mut Vec<Coord>)
    ensures
        final(v)@.to_multiset() == old(v)@.to_multiset(),
{
    rand::seq::SliceRandom::shuffle(v.as_mut_slice(), &mut rand::thread_rng());
}

/// Draws `n` positions for mines at random, none of them in the safe zone
/// around the start.
pub fn draw_mines(h: usize, w: usize, n: usize) -> (mines: Vec<Coord>)
    requires
        h >= 1,
        w >= 1,
        h * w <= usize::MAX,
        n <= mine_capacity(h, w),
    ensures
        mines.len() == n,
        mines@.no_duplicates(),
        forall|i: int| 0 <= i < mines.len() ==> is_candidate(h, w, #[trigger] mines[i]),
{
    let mut v = candidates(h, w);
    let ghost all = v@;
    shuffle(&mut v);
    let ghost mixed = v@;
    proof {
        all.lemma_multiset_has_no_duplicates();
        mixed.lemma_multiset_has_no_duplicates_conv();
        vstd::seq_lib::to_multiset_len(all);
        vstd::seq_lib::to_multiset_len(mixed);
        assert(mixed.len() == all.len());
        assert forall|i: int| 0 <= i < mixed.len() implies is_candidate(
            h,
            w,
            #[trigger] mixed[i],
        ) by {
            assert(mixed.contains(mixed[i]));
            vstd::seq_lib::to_multiset_contains(mixed, mixed[i]);
            vstd::seq_lib::to_multiset_contains(all, mixed[i]);
            assert(all.contains(mixed[i]));
        }
    }
    v.truncate(n);
    proof {
        assert forall|i: int| 0 <= i < v@.len() implies is_candidate(h, w, #[trigger] v@[i]) by {
            assert(v@[i] == mixed[i]);
        }
        assert forall|a: int, b: int| 0 <= a < v@.len() && 0 <= b < v@.len() && a != b implies v@[a]
            != v@[b] by {
            assert(v@[a] == mixed[a] && v@[b] == mixed[b]);
        }
    }
    v
}

impl Env {
    /// The environment at the start of play on a board of `h` rows and `w`
    /// columns with a mine at each of the given positions. Play starts at
    /// the last corner.
    pub fn with_mines(h: usize, w: usize, mines: &Vec<Coord>) -> (env: Env)
        requires
            h >= 1,
            w >= 1,
            forall|i: int| 0 <= i < mines.len() ==> in_grid(h, w, #[trigger] mines[i]),
        ensures
            env.wf(),
            env@ == State::initial(h, w, mines@.to_set()),
            env@.covers_board(),
            env@.in_order(),
            env@.sound(),
    {
        let m = lay_mines(h, w, mines);
        let start = (h - 1, w - 1);
        let mut left = CoordSet::full(h, w);
        left.remove(start);
        let mut stacked = CoordSet::new(h, w);
        stacked.insert(start);
        let mut stack: Vec<Coord> = Vec::new();
        stack.push(start);
        let env = Env {
            m,
            opened: CoordSet::new(h, w),
            left,
            marked: CoordSet::new(h, w),
            stack,
            stacked,
        };
        proof {
            let s = State::initial(h, w, mines@.to_set());
            lemma_initial(h, w, mines@.to_set());
            assert forall|c: Coord| mines@.to_set().contains(c) implies in_grid(h, w, c) by {
                let i = choose|i: int| 0 <= i < mines@.len() && mines@[i] == c;
                assert(in_grid(h, w, mines[i]));
            }
            crate::trust::lemma_initial_sound(h, w, mines@.to_set());
            assert(env@.cells =~= s.cells);
            assert(env@.left =~= s.left);
            assert(env@.frontier =~= s.frontier);
            assert(env@ == s);
        }
        env
    }

    /// As `with_mines`, for any dimensions and positions: there is an
    /// environment exactly where the board exists and every mine lies on
    /// it.
    pub fn try_with_mines(h: usize, w: usize, mines: &Vec<Coord>) -> (r: Option<Env>)
        ensures
            match r {
                Some(env) => {
                    &&& h >= 1 && w >= 1 && h * w <= usize::MAX
                    &&& forall|i: int| 0 <= i < mines.len() ==> in_grid(h, w, #[trigger] mines[i])
                    &&& env.wf()
                    &&& env@ == State::initial(h, w, mines@.to_set())
                    &&& env@.covers_board()
                    &&& env@.in_order()
                    &&& env@.sound()
                },
                None => h == 0 || w == 0 || h * w > usize::MAX || exists|i: int|
                    0 <= i < mines.len() && !in_grid(h, w, #[trigger] mines[i]),
            },
    {
        if room_for_mines(h, w).is_none() {
            return None;
        }
        let mut i: usize = 0;
        while i < mines.len()
            invariant
                i <= mines.len(),
                forall|k: int| 0 <= k < i ==> in_grid(h, w, #[trigger] mines[k]),
            decreases mines.len() - i,
        {
            let c = mines[i];
            if c.0 >= h || c.1 >= w {
                assert(!in_grid(h, w, mines[i as int]));
                return None;
            }
            i += 1;
        }
        Some(Env::with_mines(h, w, mines))
    }

    /// As `new`, for any dimensions and any number of mines: there is an
    /// environment exactly where the board exists and has room for the
    /// mines outside the safe zone.
    pub fn try_new(h: usize, w: usize, nb_mines: usize) -> (r: Option<Env>)
        ensures
            match r {
                Some(env) => {
                    &&& h >= 1 && w >= 1 && h * w <= usize::MAX && nb_mines <= mine_capacity(h, w)
                    &&& env.wf()
                    &&& env@ == State::initial(h, w, env@.mines())
                    &&& env@.mines().finite()
                    &&& env@.mines().len() == nb_mines
                    &&& forall|c: Coord| #[trigger]
                        env@.mines().contains(c) ==> is_candidate(h, w, c)
                    &&& env@.covers_board()
                    &&& env@.in_order()
                    &&& env@.sound()
                },
                None => h == 0 || w == 0 || h * w > usize::MAX || nb_mines > mine_capacity(h, w),
            },
    {
        match room_for_mines(h, w) {
            None => None,
            Some(room) => if nb_mines <= room {
                Some(Env::new(h, w, nb_mines))
            } else {
                None
            },
        }
    }

    /// The environment at the start of play on a board of `h` rows and `w`
    /// columns with `nb_mines` mines drawn at random outside the safe zone
    /// around the start.
    pub fn new(h: usize, w: usize, nb_mines: usize) -> (env: Env)
        requires
            h >= 1,
            w >= 1,
            h * w <= usize::MAX,
            nb_mines <= mine_capacity(h, w),
        ensures
            env.wf(),
            env@ == State::initial(h, w, env@.mines()),
            env@.mines().finite(),
            env@.mines().len() == nb_mines,
            forall|c: Coord| #[trigger] env@.mines().contains(c) ==> is_candidate(h, w, c),
            env@.covers_board(),
            env@.in_order(),
            env@.sound(),
    {
        let mines = draw_mines(h, w, nb_mines);
        let env = Env::with_mines(h, w, &mines);
        proof {
            let set = mines@.to_set();
            lemma_initial(h, w, set);
            assert forall|c: Coord| set.contains(c) implies is_candidate(h, w, c) by {
                let i = choose|i: int| 0 <= i < mines@.len() && mines@[i] == c;
                assert(is_candidate(h, w, mines[i]));
            }
            assert(env@.mines() == set);
            mines@.unique_seq_to_set();
            vstd::seq_lib::seq_to_set_is_finite(mines@);
        }
        env
    }
}

} // verus!
