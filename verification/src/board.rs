//! Building a board: laying mines out on it, and drawing them at random
//! outside the corner where play starts.

use crate::cell::{Cell, Content, Coord, Note};
use crate::grid::{adjacent, in_grid, lemma_neighbour_seq, neighbour_seq, neighbours_in};
use crate::score::Score;
use crate::seqs::{lemma_filter_gain, lemma_filter_members, lemma_filter_none, member_of};
use crate::seqs::lemma_take_members;
use vstd::prelude::*;

verus! {

/// The position where play starts: the last corner of the board.
pub open spec fn start_of(h: usize, w: usize) -> Coord {
    ((h - 1) as usize, (w - 1) as usize)
}

/// Whether `c` is the start or touches it: no mine is drawn there.
pub open spec fn in_safe_zone(h: usize, w: usize, c: Coord) -> bool {
    c == start_of(h, w) || adjacent(start_of(h, w), c)
}

/// Whether a mine may be drawn at `c`.
pub open spec fn is_candidate(h: usize, w: usize, c: Coord) -> bool {
    in_grid(h, w, c) && !in_safe_zone(h, w, c)
}

/// The number of positions of the safe zone on a board with at least one
/// row and one column.
pub open spec fn safe_zone_size(h: usize, w: usize) -> int {
    if h >= 2 && w >= 2 {
        4
    } else if h >= 2 || w >= 2 {
        2
    } else {
        1
    }
}

/// The largest number of mines that can be drawn on a board.
pub open spec fn mine_capacity(h: usize, w: usize) -> int {
    h * w - safe_zone_size(h, w)
}

/// The number of mines among the neighbours of `x`.
pub open spec fn mines_around(mines: Set<Coord>, h: usize, w: usize, x: Coord) -> int {
    neighbour_seq(h, w, x).filter(member_of(mines)).len() as int
}

/// What the cell at `x` hides on the board with the given mines.
pub open spec fn laid(mines: Set<Coord>, h: usize, w: usize, x: Coord) -> Content {
    if mines.contains(x) {
        Content::Mine
    } else {
        Content::Empty(mines_around(mines, h, w, x) as i32)
    }
}

/// Whether `m` is the untouched board of `h` rows and `w` columns with the
/// given mines: every cell hides what the mines say, and has no note.
pub open spec fn fresh_board(m: &Vec<Vec<Cell>>, h: usize, w: usize, mines: Set<Coord>) -> bool {
    &&& m.len() == h
    &&& forall|i: int| 0 <= i < h ==> (#[trigger] m[i]).len() == w
    &&& forall|i: int, j: int|
        0 <= i < h && 0 <= j < w ==> {
            let cell = #[trigger] m[i][j];
            &&& cell.content == laid(mines, h, w, (i as usize, j as usize))
            &&& cell.scores@ == Seq::<Note>::empty()
            &&& cell.score == Score::NotEnough(0)
        }
}

/// There are at most eight mines around a position.
pub proof fn lemma_mines_around_range(mines: Set<Coord>, h: usize, w: usize, x: Coord)
    ensures
        0 <= mines_around(mines, h, w, x) <= 8,
{
    lemma_neighbour_seq(h, w, x);
    lemma_filter_members(neighbour_seq(h, w, x), member_of(mines));
}

/// One more mine on the board is one more mine around each of its
/// neighbours, and changes the count of no other position.
pub proof fn lemma_mines_around_gain(mines: Set<Coord>, h: usize, w: usize, q: Coord, x: Coord)
    requires
        in_grid(h, w, q),
        in_grid(h, w, x),
        !mines.contains(q),
    ensures
        mines_around(mines.insert(q), h, w, x) == mines_around(mines, h, w, x) + if neighbour_seq(
            h,
            w,
            q,
        ).contains(x) {
            1int
        } else {
            0int
        },
{
    lemma_neighbour_seq(h, w, x);
    lemma_neighbour_seq(h, w, q);
    lemma_filter_gain(neighbour_seq(h, w, x), mines, q);
}

/// A board without mines.
fn blank_board(h: usize, w: usize) -> (m: Vec<Vec<Cell>>)
    ensures
        fresh_board(&m, h, w, Set::<Coord>::empty()),
{
    let mut m: Vec<Vec<Cell>> = Vec::new();
    let mut i: usize = 0;
    while i < h
        invariant
            i <= h,
            m.len() == i,
            forall|a: int| 0 <= a < i ==> (#[trigger] m[a]).len() == w,
            forall|a: int, b: int|
                0 <= a < i && 0 <= b < w ==> {
                    let cell = #[trigger] m[a][b];
                    &&& cell.content == Content::Empty(0)
                    &&& cell.scores@ == Seq::<Note>::empty()
                    &&& cell.score == Score::NotEnough(0)
                },
        decreases h - i,
    {
        let mut row: Vec<Cell> = Vec::new();
        let mut j: usize = 0;
        while j < w
            invariant
                j <= w,
                row.len() == j,
                forall|b: int|
                    0 <= b < j ==> {
                        let cell = #[trigger] row[b];
                        &&& cell.content == Content::Empty(0)
                        &&& cell.scores@ == Seq::<Note>::empty()
                        &&& cell.score == Score::NotEnough(0)
                    },
            decreases w - j,
        {
            row.push(Cell::new());
            j += 1;
        }
        m.push(row);
        i += 1;
    }
    proof {
        assert forall|a: int, b: int| 0 <= a < h && 0 <= b < w implies (#[trigger] m[a][b]).content
            == laid(Set::<Coord>::empty(), h, w, (a as usize, b as usize)) by {
            lemma_filter_none(neighbour_seq(h, w, (a as usize, b as usize)));
        }
    }
    m
}

/// The untouched board of `h` rows and `w` columns with a mine at each of
/// the given positions; a position given twice is one mine.
pub fn lay_mines(h: usize, w: usize, mines: &Vec<Coord>) -> (m: Vec<Vec<Cell>>)
    requires
        forall|i: int| 0 <= i < mines.len() ==> in_grid(h, w, #[trigger] mines[i]),
    ensures
        fresh_board(&m, h, w, mines@.to_set()),
{
    let mut m = blank_board(h, w);
    let mut t: usize = 0;
    assert(mines@.take(0).to_set() =~= Set::<Coord>::empty());
    while t < mines.len()
        invariant
            t <= mines.len(),
            forall|i: int| 0 <= i < mines.len() ==> in_grid(h, w, #[trigger] mines[i]),
            fresh_board(&m, h, w, mines@.take(t as int).to_set()),
        decreases mines.len() - t,
    {
        let q = mines[t];
        let ghost had = mines@.take(t as int).to_set();
        let ghost got = had.insert(q);
        proof {
            lemma_take_members(mines@, t + 1);
            assert(mines@.take(t + 1).to_set() =~= got);
            assert(in_grid(h, w, mines[t as int]));
        }
        let is_mine = match m[q.0][q.1].content {
            Content::Mine => true,
            Content::Empty(_) => false,
        };
        assert(is_mine == had.contains(q));
        if !is_mine {
            m[q.0][q.1].content = Content::Mine;
            let nbrs = neighbours_in(h, w, q);
            proof {
                lemma_neighbour_seq(h, w, q);
            }
            let mut j: usize = 0;
            while j < nbrs.len()
                invariant
                    j <= nbrs.len(),
                    nbrs@ == neighbour_seq(h, w, q),
                    nbrs@.no_duplicates(),
                    !nbrs@.contains(q),
                    forall|d: Coord| nbrs@.contains(d) ==> in_grid(h, w, d),
                    in_grid(h, w, q),
                    !had.contains(q),
                    m.len() == h,
                    forall|a: int| 0 <= a < h ==> (#[trigger] m[a]).len() == w,
                    forall|a: int, b: int|
                        0 <= a < h && 0 <= b < w ==> {
                            let cell = #[trigger] m[a][b];
                            let x = (a as usize, b as usize);
                            &&& cell.scores@ == Seq::<Note>::empty()
                            &&& cell.score == Score::NotEnough(0)
                            &&& cell.content == if x == q || had.contains(x) {
                                Content::Mine
                            } else if nbrs@.take(j as int).contains(x) {
                                Content::Empty((mines_around(had, h, w, x) + 1) as i32)
                            } else {
                                Content::Empty(mines_around(had, h, w, x) as i32)
                            }
                        },
                decreases nbrs.len() - j,
            {
                let x = nbrs[j];
                proof {
                    assert(nbrs@.contains(x));
                    lemma_take_members(nbrs@, j + 1);
                    lemma_mines_around_range(had, h, w, x);
                    assert(!nbrs@.take(j as int).contains(x)) by {
                        if nbrs@.take(j as int).contains(x) {
                            let k = choose|k: int|
                                0 <= k < nbrs@.take(j as int).len() && nbrs@.take(j as int)[k] == x;
                            assert(nbrs@[k] == nbrs@[j as int]);
                        }
                    }
                    assert(m[x.0 as int][x.1 as int].content == if had.contains(x) {
                        Content::Mine
                    } else {
                        Content::Empty(mines_around(had, h, w, x) as i32)
                    });
                }
                m[x.0][x.1].incr();
                j += 1;
            }
            proof {
                assert(nbrs@.take(nbrs.len() as int) == nbrs@);
                assert forall|a: int, b: int| 0 <= a < h && 0 <= b < w implies (
                #[trigger] m[a][b]).content == laid(got, h, w, (a as usize, b as usize)) by {
                    let x = (a as usize, b as usize);
                    lemma_mines_around_gain(had, h, w, q, x);
                }
            }
        } else {
            assert(got =~= had);
        }
        t += 1;
    }
    assert(mines@.take(mines.len() as int) == mines@);
    m
}

} // verus!
