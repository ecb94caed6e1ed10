//! The order of the frontier: highest rank first, so that the safest
//! position is the last and is taken first; positions of equal rank keep
//! the order in which they stood.

use crate::cell::Coord;
use crate::model::State;
use crate::seqs::{lemma_push_members, lemma_push_no_duplicates};
use vstd::prelude::*;

verus! {

/// Whether `s` runs from high key to low key.
pub open spec fn descending(s: Seq<Coord>, key: spec_fn(Coord) -> int) -> bool {
    forall|i: int, j: int| 0 <= i < j < s.len() ==> key(#[trigger] s[i]) >= key(#[trigger] s[j])
}

/// `s` with `x` put behind the last position whose key is at least that of
/// `x`.
pub open spec fn place(s: Seq<Coord>, x: Coord, key: spec_fn(Coord) -> int) -> Seq<Coord>
    decreases s.len(),
{
    if s.len() == 0 {
        s.push(x)
    } else if key(s.last()) >= key(x) {
        s.push(x)
    } else {
        place(s.drop_last(), x, key).push(s.last())
    }
}

/// `s` in descending order of key, positions of equal key in the order in
/// which they stand in `s`.
pub open spec fn ranked(s: Seq<Coord>, key: spec_fn(Coord) -> int) -> Seq<Coord>
    decreases s.len(),
{
    if s.len() == 0 {
        s
    } else {
        place(ranked(s.drop_last(), key), s.last(), key)
    }
}

/// The test for the positions whose key is `v`.
pub open spec fn keyed(key: spec_fn(Coord) -> int, v: int) -> spec_fn(Coord) -> bool {
    |c: Coord| key(c) == v
}

/// Placing a position into a descending sequence gives a descending
/// sequence with that one position more, which comes last among those of its
/// key.
pub proof fn lemma_place(s: Seq<Coord>, x: Coord, key: spec_fn(Coord) -> int)
    requires
        descending(s, key),
    ensures
        descending(place(s, x, key), key),
        place(s, x, key).len() == s.len() + 1,
        forall|y: Coord| #[trigger] place(s, x, key).contains(y) <==> (s.contains(y) || y == x),
        s.no_duplicates() && !s.contains(x) ==> place(s, x, key).no_duplicates(),
        forall|v: int|
            #[trigger] place(s, x, key).filter(keyed(key, v)) == if key(x) == v {
                s.filter(keyed(key, v)).push(x)
            } else {
                s.filter(keyed(key, v))
            },
    decreases s.len(),
{
    reveal(Seq::filter);
    let r = place(s, x, key);
    lemma_push_members(s, x);
    if s.len() == 0 || key(s.last()) >= key(x) {
        assert(r == s.push(x));
        assert(descending(r, key)) by {
            assert forall|i: int, j: int| 0 <= i < j < r.len() implies key(#[trigger] r[i]) >= key(
                #[trigger] r[j],
            ) by {
                if j == s.len() {
                    assert(r[i] == s[i]);
                    if i < s.len() - 1 {
                        assert(key(s[i]) >= key(s[s.len() - 1]));
                    }
                } else {
                    assert(r[i] == s[i] && r[j] == s[j]);
                }
            }
        }
        if s.no_duplicates() && !s.contains(x) {
            lemma_push_no_duplicates(s, x);
        }
        assert forall|v: int|
            #[trigger] r.filter(keyed(key, v)) == if key(x) == v {
                s.filter(keyed(key, v)).push(x)
            } else {
                s.filter(keyed(key, v))
            } by {
            assert(r.drop_last() == s);
            assert(r.last() == x);
        }
    } else {
        let front = s.drop_last();
        let last = s.last();
        assert(descending(front, key)) by {
            assert forall|i: int, j: int| 0 <= i < j < front.len() implies key(
                #[trigger] front[i],
            ) >= key(#[trigger] front[j]) by {
                assert(front[i] == s[i] && front[j] == s[j]);
            }
        }
        lemma_place(front, x, key);
        let mid = place(front, x, key);
        assert(r == mid.push(last));
        lemma_push_members(front, last);
        assert(front.push(last) == s);
        lemma_push_members(mid, last);
        assert(descending(r, key)) by {
            assert forall|i: int, j: int| 0 <= i < j < r.len() implies key(#[trigger] r[i]) >= key(
                #[trigger] r[j],
            ) by {
                if j == mid.len() {
                    assert(r[i] == mid[i]);
                    assert(mid.contains(mid[i]));
                    if mid[i] != x {
                        assert(front.contains(mid[i]));
                        let k = choose|k: int| 0 <= k < front.len() && front[k] == mid[i];
                        assert(key(s[k]) >= key(s[s.len() - 1]));
                    }
                } else {
                    assert(r[i] == mid[i] && r[j] == mid[j]);
                }
            }
        }
        if s.no_duplicates() && !s.contains(x) {
            assert(front.no_duplicates()) by {
                assert forall|a: int, b: int|
                    0 <= a < front.len() && 0 <= b < front.len() && a != b implies front[a]
                    != front[b] by {
                    assert(front[a] == s[a] && front[b] == s[b]);
                }
            }
            assert(!front.contains(last)) by {
                if front.contains(last) {
                    let k = choose|k: int| 0 <= k < front.len() && front[k] == last;
                    assert(s[k] == s[s.len() - 1]);
                }
            }
            lemma_push_no_duplicates(mid, last);
        }
        assert forall|v: int|
            #[trigger] r.filter(keyed(key, v)) == if key(x) == v {
                s.filter(keyed(key, v)).push(x)
            } else {
                s.filter(keyed(key, v))
            } by {
            let p = keyed(key, v);
            assert(r.drop_last() == mid);
            assert(r.last() == last);
            assert(mid.filter(p) == if key(x) == v {
                front.filter(p).push(x)
            } else {
                front.filter(p)
            });
        }
    }
}

/// Ranking orders a sequence by descending key. It keeps the length, the
/// members and the absence of repetitions, and it keeps the positions of
/// each key in their order.
pub proof fn lemma_ranked(s: Seq<Coord>, key: spec_fn(Coord) -> int)
    ensures
        descending(ranked(s, key), key),
        ranked(s, key).len() == s.len(),
        forall|y: Coord| #[trigger] ranked(s, key).contains(y) <==> s.contains(y),
        s.no_duplicates() ==> ranked(s, key).no_duplicates(),
        forall|v: int| #[trigger] ranked(s, key).filter(keyed(key, v)) == s.filter(keyed(key, v)),
    decreases s.len(),
{
    reveal(Seq::filter);
    if s.len() > 0 {
        let front = s.drop_last();
        let last = s.last();
        lemma_ranked(front, key);
        let mid = ranked(front, key);
        lemma_place(mid, last, key);
        lemma_push_members(front, last);
        assert(front.push(last) == s);
        if s.no_duplicates() {
            assert(front.no_duplicates()) by {
                assert forall|a: int, b: int|
                    0 <= a < front.len() && 0 <= b < front.len() && a != b implies front[a]
                    != front[b] by {
                    assert(front[a] == s[a] && front[b] == s[b]);
                }
            }
            assert(!front.contains(last)) by {
                if front.contains(last) {
                    let k = choose|k: int| 0 <= k < front.len() && front[k] == last;
                    assert(s[k] == s[s.len() - 1]);
                }
            }
        }
        assert forall|v: int| #[trigger]
            ranked(s, key).filter(keyed(key, v)) == s.filter(keyed(key, v)) by {
            let p = keyed(key, v);
            assert(mid.filter(p) == front.filter(p));
            assert(place(mid, last, key).filter(p) == if key(last) == v {
                mid.filter(p).push(last)
            } else {
                mid.filter(p)
            });
        }
    }
}

/// A sequence that is already in descending order is its own ranking, so
/// ranking twice gives what ranking once gives.
pub proof fn lemma_ranked_fixed(s: Seq<Coord>, key: spec_fn(Coord) -> int)
    requires
        descending(s, key),
    ensures
        ranked(s, key) == s,
    decreases s.len(),
{
    if s.len() > 0 {
        let front = s.drop_last();
        assert(descending(front, key)) by {
            assert forall|i: int, j: int| 0 <= i < j < front.len() implies key(
                #[trigger] front[i],
            ) >= key(#[trigger] front[j]) by {
                assert(front[i] == s[i] && front[j] == s[j]);
            }
        }
        lemma_ranked_fixed(front, key);
        if front.len() > 0 {
            assert(front.last() == s[s.len() - 2]);
            assert(key(s[s.len() - 2]) >= key(s[s.len() - 1]));
        }
        assert(front.push(s.last()) == s);
    }
}

/// Placing `x` passes over a tail of positions whose keys are all below
/// that of `x`.
pub proof fn lemma_place_skips(s: Seq<Coord>, x: Coord, key: spec_fn(Coord) -> int, j: int)
    requires
        0 <= j <= s.len(),
        forall|t: int| j <= t < s.len() ==> key(#[trigger] s[t]) < key(x),
    ensures
        place(s, x, key) == place(s.take(j), x, key) + s.skip(j),
    decreases s.len() - j,
{
    if j == s.len() {
        assert(s.take(j) == s);
        assert(place(s, x, key) + s.skip(j) == place(s, x, key));
    } else {
        let front = s.drop_last();
        assert(key(s[s.len() - 1]) < key(x));
        assert forall|t: int| j <= t < front.len() implies key(#[trigger] front[t]) < key(x) by {
            assert(front[t] == s[t]);
        }
        lemma_place_skips(front, x, key, j);
        assert(front.take(j) == s.take(j));
        assert(front.skip(j).push(s.last()) == s.skip(j));
        assert((place(s.take(j), x, key) + front.skip(j)).push(s.last()) == place(
            s.take(j),
            x,
            key,
        ) + s.skip(j));
    }
}

/// Filtering keeps a sequence in descending order.
pub proof fn lemma_filter_descending(
    s: Seq<Coord>,
    key: spec_fn(Coord) -> int,
    p: spec_fn(Coord) -> bool,
)
    requires
        descending(s, key),
    ensures
        descending(s.filter(p), key),
    decreases s.len(),
{
    reveal(Seq::filter);
    if s.len() > 0 {
        let front = s.drop_last();
        assert(descending(front, key)) by {
            assert forall|i: int, j: int| 0 <= i < j < front.len() implies key(
                #[trigger] front[i],
            ) >= key(#[trigger] front[j]) by {
                assert(front[i] == s[i] && front[j] == s[j]);
            }
        }
        lemma_filter_descending(front, key, p);
        crate::seqs::lemma_filter_members(front, p);
        if p(s.last()) {
            let f = front.filter(p);
            let r = f.push(s.last());
            assert forall|i: int, j: int| 0 <= i < j < r.len() implies key(#[trigger] r[i]) >= key(
                #[trigger] r[j],
            ) by {
                if j == f.len() {
                    assert(f.contains(f[i]));
                    assert(front.contains(f[i]));
                    let k = choose|k: int| 0 <= k < front.len() && front[k] == f[i];
                    assert(key(s[k]) >= key(s[s.len() - 1]));
                } else {
                    assert(r[i] == f[i] && r[j] == f[j]);
                }
            }
        }
    }
}

impl State {
    /// The key by which the frontier is ordered: the rank of a position's
    /// score.
    pub open spec fn rank_key(self) -> spec_fn(Coord) -> int {
        |c: Coord| self.score_at(c).rank()
    }

    /// Whether the frontier stands in descending order of rank.
    pub open spec fn in_order(self) -> bool {
        descending(self.frontier, self.rank_key())
    }

    /// The state with its frontier ranked.
    pub open spec fn sorted(self) -> State {
        State { frontier: ranked(self.frontier, self.rank_key()), ..self }
    }
}

/// Ranking the frontier keeps a state coherent, and valid if it was, and
/// leaves the frontier in order.
pub proof fn lemma_sorted(s: State)
    requires
        s.coherent(),
    ensures
        s.sorted().coherent(),
        s.valid() ==> s.sorted().valid(),
        s.sorted().in_order(),
        s.same_ground(s.sorted()),
        s.sorted().cells == s.cells,
        s.sorted().stacked == s.stacked,
        s.sorted().frontier.to_set() == s.frontier.to_set(),
        s.sorted().frontier.len() == s.frontier.len(),
{
    let t = s.sorted();
    lemma_ranked(s.frontier, s.rank_key());
    assert(t.rank_key() == s.rank_key());
    assert forall|i: int| 0 <= i < t.frontier.len() implies {
        let c = #[trigger] t.frontier[i];
        &&& t.on_board(c)
        &&& !t.opened.contains(c)
        &&& t.stacked.contains(c) || t.marked.contains(c)
        &&& s.valid() ==> t.stacked.contains(c)
    } by {
        let c = t.frontier[i];
        assert(t.frontier.contains(c));
        assert(s.frontier.contains(c));
        let k = choose|k: int| 0 <= k < s.frontier.len() && s.frontier[k] == c;
        assert(s.frontier[k] == c);
    }
    assert(t.frontier.to_set() =~= s.frontier.to_set());
}

} // verus!
