//! Facts about filtered sequences and sequences without repetition.

use vstd::prelude::*;

verus! {

/// The members of a pushed sequence.
pub proof fn lemma_push_members<A>(s: Seq<A>, x: A)
    ensures
        forall|y: A| #[trigger] s.push(x).contains(y) <==> (s.contains(y) || y == x),
{
    let t = s.push(x);
    assert forall|y: A| #[trigger] t.contains(y) <==> (s.contains(y) || y == x) by {
        if s.contains(y) {
            let k = choose|k: int| 0 <= k < s.len() && s[k] == y;
            assert(t[k] == y);
        }
        if y == x {
            assert(t[s.len() as int] == y);
        }
        if t.contains(y) {
            let k = choose|k: int| 0 <= k < t.len() && t[k] == y;
            if k < s.len() {
                assert(s[k] == y);
            }
        }
    }
}

/// Pushing an element that is not yet there keeps a sequence free of
/// repetitions.
pub proof fn lemma_push_no_duplicates<A>(s: Seq<A>, x: A)
    requires
        s.no_duplicates(),
        !s.contains(x),
    ensures
        s.push(x).no_duplicates(),
{
    let t = s.push(x);
    assert forall|a: int, b: int| 0 <= a < t.len() && 0 <= b < t.len() && a != b implies t[a]
        != t[b] by {
        if a < s.len() {
            assert(s.contains(s[a]));
        }
        if b < s.len() {
            assert(s.contains(s[b]));
        }
    }
}

/// The members of a prefix are those of the prefix one shorter and the
/// element behind it.
pub proof fn lemma_take_members<A>(s: Seq<A>, k: int)
    requires
        0 < k <= s.len(),
    ensures
        forall|e: A| #[trigger]
            s.take(k).contains(e) <==> (s.take(k - 1).contains(e) || e == s[k - 1]),
{
    assert(s.take(k) == s.take(k - 1).push(s[k - 1]));
    lemma_push_members(s.take(k - 1), s[k - 1]);
}

/// A filtered sequence holds the members that pass the test, and no more
/// elements than the sequence it was taken from.
pub proof fn lemma_filter_members<A>(s: Seq<A>, p: spec_fn(A) -> bool)
    ensures
        forall|x: A| #[trigger] s.filter(p).contains(x) <==> (s.contains(x) && p(x)),
        s.filter(p).len() <= s.len(),
    decreases s.len(),
{
    reveal(Seq::filter);
    if s.len() == 0 {
        assert forall|x: A| #[trigger] s.filter(p).contains(x) <==> (s.contains(x) && p(x)) by {}
    } else {
        let front = s.drop_last();
        let last = s.last();
        lemma_filter_members(front, p);
        lemma_push_members(front, last);
        assert(front.push(last) == s);
        if p(last) {
            lemma_push_members(front.filter(p), last);
        }
    }
}

/// Filtering keeps a sequence free of repetitions.
pub proof fn lemma_filter_no_duplicates<A>(s: Seq<A>, p: spec_fn(A) -> bool)
    requires
        s.no_duplicates(),
    ensures
        s.filter(p).no_duplicates(),
    decreases s.len(),
{
    reveal(Seq::filter);
    if s.len() > 0 {
        let front = s.drop_last();
        let last = s.last();
        lemma_filter_no_duplicates(front, p);
        lemma_filter_members(front, p);
        if p(last) {
            assert(!front.contains(last)) by {
                if front.contains(last) {
                    let k = choose|k: int| 0 <= k < front.len() && front[k] == last;
                    assert(s[k] == s[s.len() - 1]);
                }
            }
            lemma_push_no_duplicates(front.filter(p), last);
        }
    }
}

/// The test for the members of `set`.
pub open spec fn member_of<A>(set: Set<A>) -> spec_fn(A) -> bool {
    |x: A| set.contains(x)
}

/// No element of a sequence is a member of the empty set.
pub proof fn lemma_filter_none<A>(s: Seq<A>)
    ensures
        s.filter(member_of(Set::<A>::empty())).len() == 0,
    decreases s.len(),
{
    reveal(Seq::filter);
    if s.len() > 0 {
        lemma_filter_none(s.drop_last());
    }
}

/// When a set gains an element, a sequence without repetitions has one more
/// member of the set if it holds that element, and as many as before if it
/// does not.
pub proof fn lemma_filter_gain<A>(s: Seq<A>, set: Set<A>, q: A)
    requires
        s.no_duplicates(),
        !set.contains(q),
    ensures
        s.filter(member_of(set.insert(q))).len() == s.filter(member_of(set)).len() + if s.contains(
            q,
        ) {
            1int
        } else {
            0int
        },
    decreases s.len(),
{
    reveal(Seq::filter);
    if s.len() > 0 {
        let front = s.drop_last();
        let last = s.last();
        assert(front.no_duplicates()) by {
            assert forall|a: int, b: int|
                0 <= a < front.len() && 0 <= b < front.len() && a != b implies front[a]
                != front[b] by {
                assert(front[a] == s[a] && front[b] == s[b]);
            }
        }
        lemma_filter_gain(front, set, q);
        lemma_push_members(front, last);
        assert(front.push(last) == s);
        if front.contains(q) {
            let k = choose|k: int| 0 <= k < front.len() && front[k] == q;
            assert(s[k] == q);
            assert(last != q);
        }
    } else {
        assert(!s.contains(q));
    }
}

/// Two tests that agree on every element of a sequence filter it alike.
pub proof fn lemma_filter_agree<A>(s: Seq<A>, p: spec_fn(A) -> bool, q: spec_fn(A) -> bool)
    requires
        forall|i: int| 0 <= i < s.len() ==> p(#[trigger] s[i]) == q(s[i]),
    ensures
        s.filter(p) == s.filter(q),
    decreases s.len(),
{
    reveal(Seq::filter);
    if s.len() > 0 {
        let front = s.drop_last();
        assert forall|i: int| 0 <= i < front.len() implies p(#[trigger] front[i]) == q(
            front[i],
        ) by {
            assert(front[i] == s[i]);
        }
        lemma_filter_agree(front, p, q);
        assert(s.last() == s[s.len() - 1]);
    }
}

/// A filtered sequence that is as long as the sequence it was taken from
/// has lost nothing: every element passes the test.
pub proof fn lemma_filter_full<A>(s: Seq<A>, p: spec_fn(A) -> bool)
    requires
        s.filter(p).len() >= s.len(),
    ensures
        forall|i: int| 0 <= i < s.len() ==> p(#[trigger] s[i]),
    decreases s.len(),
{
    reveal(Seq::filter);
    if s.len() > 0 {
        let front = s.drop_last();
        lemma_filter_members(front, p);
        lemma_filter_full(front, p);
        assert forall|i: int| 0 <= i < s.len() implies p(#[trigger] s[i]) by {
            if i < s.len() - 1 {
                assert(front[i] == s[i]);
            }
        }
    }
}

/// A filtered sequence that is empty has kept nothing: no element passes
/// the test.
pub proof fn lemma_filter_empty<A>(s: Seq<A>, p: spec_fn(A) -> bool)
    requires
        s.filter(p).len() == 0,
    ensures
        forall|i: int| 0 <= i < s.len() ==> !p(#[trigger] s[i]),
    decreases s.len(),
{
    reveal(Seq::filter);
    if s.len() > 0 {
        let front = s.drop_last();
        lemma_filter_empty(front, p);
        assert forall|i: int| 0 <= i < s.len() implies !p(#[trigger] s[i]) by {
            if i < s.len() - 1 {
                assert(front[i] == s[i]);
            }
        }
    }
}

/// Where every element that passes `p` passes exactly one of `a`, `b` and
/// `c`, the three tests divide what `p` keeps.
pub proof fn lemma_filter_split<A>(
    s: Seq<A>,
    p: spec_fn(A) -> bool,
    a: spec_fn(A) -> bool,
    b: spec_fn(A) -> bool,
    c: spec_fn(A) -> bool,
)
    requires
        forall|i: int|
            0 <= i < s.len() && p(#[trigger] s[i]) ==> (a(s[i]) && !b(s[i]) && !c(s[i])) || (!a(
                s[i],
            ) && b(s[i]) && !c(s[i])) || (!a(s[i]) && !b(s[i]) && c(s[i])),
    ensures
        s.filter(p).len() == s.filter(|x: A| p(x) && a(x)).len() + s.filter(
            |x: A| p(x) && b(x),
        ).len() + s.filter(|x: A| p(x) && c(x)).len(),
    decreases s.len(),
{
    reveal(Seq::filter);
    if s.len() > 0 {
        let front = s.drop_last();
        assert forall|i: int| 0 <= i < front.len() && p(#[trigger] front[i]) implies (a(front[i])
            && !b(front[i]) && !c(front[i])) || (!a(front[i]) && b(front[i]) && !c(front[i])) || (
        !a(front[i]) && !b(front[i]) && c(front[i])) by {
            assert(front[i] == s[i]);
        }
        lemma_filter_split(front, p, a, b, c);
        assert(s.last() == s[s.len() - 1]);
    }
}

/// A sequence without repetitions whose elements all occur in another
/// sequence is no longer than that one.
pub proof fn lemma_distinct_within<A>(s: Seq<A>, t: Seq<A>)
    requires
        s.no_duplicates(),
        forall|i: int| 0 <= i < s.len() ==> t.contains(#[trigger] s[i]),
    ensures
        s.len() <= t.len(),
{
    s.unique_seq_to_set();
    t.lemma_cardinality_of_set();
    vstd::seq_lib::seq_to_set_is_finite(t);
    assert(s.to_set().subset_of(t.to_set())) by {
        assert forall|x: A| s.to_set().contains(x) implies t.to_set().contains(x) by {
            let i = choose|i: int| 0 <= i < s.len() && s[i] == x;
            assert(t.contains(s[i]));
        }
    }
    vstd::set_lib::lemma_len_subset(s.to_set(), t.to_set());
}

/// How the filter of a prefix grows with the prefix.
pub proof fn lemma_filter_take_step<A>(s: Seq<A>, p: spec_fn(A) -> bool, i: int)
    requires
        0 <= i < s.len(),
    ensures
        s.take(i + 1).filter(p) == if p(s[i]) {
            s.take(i).filter(p).push(s[i])
        } else {
            s.take(i).filter(p)
        },
{
    reveal(Seq::filter);
    assert(s.take(i + 1).drop_last() == s.take(i));
    assert(s.take(i + 1).last() == s[i]);
}

} // verus!
