//! Adjacency on a rectangular grid.

use crate::cell::{Cell, Coord};
use vstd::prelude::*;

verus! {

/// Whether `c` lies on a grid of `h` rows and `w` columns.
pub open spec fn in_grid(h: usize, w: usize, c: Coord) -> bool {
    c.0 < h && c.1 < w
}

/// Whether two positions touch, by a side or by a corner.
pub open spec fn adjacent(a: Coord, b: Coord) -> bool {
    &&& a != b
    &&& a.0 - b.0 <= 1 && b.0 - a.0 <= 1
    &&& a.1 - b.1 <= 1 && b.1 - a.1 <= 1
}

/// `s`, followed by the position `(r, c)` if it lies on the grid.
pub open spec fn add_if(s: Seq<Coord>, h: usize, w: usize, r: int, c: int) -> Seq<Coord> {
    if 0 <= r < h && 0 <= c < w {
        s.push((r as usize, c as usize))
    } else {
        s
    }
}

/// The neighbours of `c` on the grid, counter-clockwise from the one above:
/// N, NW, W, SW, S, SE, E, NE, without those that fall off the grid.
pub open spec fn neighbour_seq(h: usize, w: usize, c: Coord) -> Seq<Coord> {
    let i = c.0 as int;
    let j = c.1 as int;
    let s = Seq::<Coord>::empty();
    let s = add_if(s, h, w, i - 1, j);
    let s = add_if(s, h, w, i - 1, j - 1);
    let s = add_if(s, h, w, i, j - 1);
    let s = add_if(s, h, w, i + 1, j - 1);
    let s = add_if(s, h, w, i + 1, j);
    let s = add_if(s, h, w, i + 1, j + 1);
    let s = add_if(s, h, w, i, j + 1);
    let s = add_if(s, h, w, i - 1, j + 1);
    s
}

/// What one conditional step adds to a sequence.
proof fn lemma_add_if(s: Seq<Coord>, h: usize, w: usize, r: int, c: int)
    ensures
        forall|d: Coord|
            #[trigger] add_if(s, h, w, r, c).contains(d) <==> (s.contains(d) || (0 <= r < h && 0
                <= c < w && d == (r as usize, c as usize))),
        s.no_duplicates() && !s.contains((r as usize, c as usize)) ==> add_if(
            s,
            h,
            w,
            r,
            c,
        ).no_duplicates(),
{
    let t = add_if(s, h, w, r, c);
    if 0 <= r < h && 0 <= c < w {
        let x = (r as usize, c as usize);
        assert forall|d: Coord| #[trigger] t.contains(d) <==> (s.contains(d) || d == x) by {
            if s.contains(d) {
                let k = choose|k: int| 0 <= k < s.len() && s[k] == d;
                assert(t[k] == d);
            }
            if d == x {
                assert(t[s.len() as int] == d);
            }
            if t.contains(d) {
                let k = choose|k: int| 0 <= k < t.len() && t[k] == d;
                if k < s.len() {
                    assert(s[k] == d);
                }
            }
        }
        if s.no_duplicates() && !s.contains(x) {
            assert forall|a: int, b: int| 0 <= a < t.len() && 0 <= b < t.len() && a != b implies t[a]
                != t[b] by {
                if a < s.len() {
                    assert(s.contains(s[a]));
                }
                if b < s.len() {
                    assert(s.contains(s[b]));
                }
            }
        }
    }
}

/// The neighbours of any position are exactly the grid positions that touch
/// it, each listed once; none is the position itself.
pub proof fn lemma_neighbour_seq(h: usize, w: usize, c: Coord)
    ensures
        neighbour_seq(h, w, c).no_duplicates(),
        neighbour_seq(h, w, c).len() <= 8,
        forall|d: Coord| #[trigger]
            neighbour_seq(h, w, c).contains(d) <==> (in_grid(h, w, d) && adjacent(c, d)),
        !neighbour_seq(h, w, c).contains(c),
{
    let i = c.0 as int;
    let j = c.1 as int;
    let s0 = Seq::<Coord>::empty();
    let s1 = add_if(s0, h, w, i - 1, j);
    let s2 = add_if(s1, h, w, i - 1, j - 1);
    let s3 = add_if(s2, h, w, i, j - 1);
    let s4 = add_if(s3, h, w, i + 1, j - 1);
    let s5 = add_if(s4, h, w, i + 1, j);
    let s6 = add_if(s5, h, w, i + 1, j + 1);
    let s7 = add_if(s6, h, w, i, j + 1);
    let s8 = add_if(s7, h, w, i - 1, j + 1);
    assert(forall|d: Coord| !s0.contains(d));
    lemma_add_if(s0, h, w, i - 1, j);
    lemma_add_if(s1, h, w, i - 1, j - 1);
    lemma_add_if(s2, h, w, i, j - 1);
    lemma_add_if(s3, h, w, i + 1, j - 1);
    lemma_add_if(s4, h, w, i + 1, j);
    lemma_add_if(s5, h, w, i + 1, j + 1);
    lemma_add_if(s6, h, w, i, j + 1);
    lemma_add_if(s7, h, w, i - 1, j + 1);
    assert(s1.no_duplicates());
    assert(s2.no_duplicates());
    assert(s3.no_duplicates());
    assert(s4.no_duplicates());
    assert(s5.no_duplicates());
    assert(s6.no_duplicates());
    assert(s7.no_duplicates());
    assert(s8.no_duplicates());
    assert(s8 == neighbour_seq(h, w, c));
    assert forall|d: Coord| #[trigger]
        neighbour_seq(h, w, c).contains(d) <==> (in_grid(h, w, d) && adjacent(c, d)) by {
        assert(s8.contains(d) <==> s7.contains(d) || (0 <= i - 1 < h && 0 <= j + 1 < w && d == (
            (i - 1) as usize,
            (j + 1) as usize,
        )));
    }
}

/// A position with grid on every side.
pub open spec fn is_interior(h: usize, w: usize, c: Coord) -> bool {
    0 < c.0 && c.0 + 1 < h && 0 < c.1 && c.1 + 1 < w
}

/// A position in the first or last row and in the first or last column.
pub open spec fn is_corner(h: usize, w: usize, c: Coord) -> bool {
    (c.0 == 0 || c.0 + 1 == h) && (c.1 == 0 || c.1 + 1 == w)
}

/// A position on the border of the grid.
pub open spec fn is_border(h: usize, w: usize, c: Coord) -> bool {
    c.0 == 0 || c.0 + 1 == h || c.1 == 0 || c.1 + 1 == w
}

/// On a grid of at least two rows and two columns an interior position has
/// eight neighbours, a corner three, and any other border position five.
pub proof fn lemma_neighbour_count(h: usize, w: usize, c: Coord)
    requires
        in_grid(h, w, c),
        h >= 2,
        w >= 2,
    ensures
        is_interior(h, w, c) ==> neighbour_seq(h, w, c).len() == 8,
        is_corner(h, w, c) ==> neighbour_seq(h, w, c).len() == 3,
        is_border(h, w, c) && !is_corner(h, w, c) ==> neighbour_seq(h, w, c).len() == 5,
{
}

/// The height of a grid and the width of its first row; an empty grid has
/// neither.
pub fn dim<T>(v: &Vec<Vec<T>>) -> (d: (usize, usize))
    ensures
        d.0 == v.len(),
        d.1 == (if v.len() > 0 {
            v[0].len()
        } else {
            0
        }),
{
    if v.len() > 0 {
        (v.len(), v[0].len())
    } else {
        (0, 0)
    }
}

/// The neighbours of `c` on a grid of `h` rows and `w` columns: the
/// positions of the grid that touch `c`, each once, in their fixed order.
pub fn neighbours_in(h: usize, w: usize, c: Coord) -> (r: Vec<Coord>)
    ensures
        r@ == neighbour_seq(h, w, c),
        r@.no_duplicates(),
        r.len() <= 8,
        forall|d: Coord| #[trigger] r@.contains(d) <==> (in_grid(h, w, d) && adjacent(c, d)),
{
    proof {
        lemma_neighbour_seq(h, w, c);
    }
    let i = c.0;
    let j = c.1;
    let up = i > 0 && i - 1 < h;
    let down = h > 0 && i < h - 1;
    let row = i < h;
    let left = j > 0 && j - 1 < w;
    let right = w > 0 && j < w - 1;
    let col = j < w;
    let mut r: Vec<Coord> = Vec::new();
    if up && col {
        r.push((i - 1, j));
    }
    if up && left {
        r.push((i - 1, j - 1));
    }
    if row && left {
        r.push((i, j - 1));
    }
    if down && left {
        r.push((i + 1, j - 1));
    }
    if down && col {
        r.push((i + 1, j));
    }
    if down && right {
        r.push((i + 1, j + 1));
    }
    if row && right {
        r.push((i, j + 1));
    }
    if up && right {
        r.push((i - 1, j + 1));
    }
    r
}

/// The width of a board: the length of its first row.
pub open spec fn width_of(v: &Vec<Vec<Cell>>) -> usize {
    if v.len() > 0 {
        v[0].len()
    } else {
        0
    }
}

/// The neighbours of `c` on the board `v`, whose width is that of its first
/// row: the positions of the board that touch `c`, each once, in their
/// fixed order.
pub fn neighbours(v: &Vec<Vec<Cell>>, c: Coord) -> (r: Vec<Coord>)
    ensures
        r@ == neighbour_seq(v.len(), width_of(v), c),
        r@.no_duplicates(),
        r.len() <= 8,
        forall|d: Coord| #[trigger]
            r@.contains(d) <==> (in_grid(v.len(), width_of(v), d) && adjacent(c, d)),
{
    let (h, w) = dim(v);
    neighbours_in(h, w, c)
}

} // verus!
