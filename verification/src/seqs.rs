//! Small facts about sequences that the tables and lists of the crate share.

use vstd::prelude::*;

verus! {

/// The views of a sequence of values.
pub open spec fn views<T: View>(s: Seq<T>) -> Seq<T::V> {
    s.map_values(|t: T| t@)
}

/// The index of the first element of `s` that `p` holds of; `s.len()` if there is
/// none.
pub open spec fn first_where<A>(s: Seq<A>, p: spec_fn(A) -> bool) -> int
    decreases s.len(),
{
    if s.len() == 0 || p(s[0]) {
        0
    } else {
        1 + first_where(s.skip(1), p)
    }
}

/// The elements of `s` that `p` holds of, in order.
pub open spec fn kept<A>(s: Seq<A>, p: spec_fn(A) -> bool) -> Seq<A>
    decreases s.len(),
{
    if s.len() == 0 {
        Seq::<A>::empty()
    } else {
        let head = kept(s.drop_last(), p);
        if p(s.last()) {
            head.push(s.last())
        } else {
            head
        }
    }
}

/// An index with no match before it and a match at it, if it is within `s`, is
/// the first match.
pub proof fn lemma_first_where_is<A>(s: Seq<A>, p: spec_fn(A) -> bool, i: int)
    requires
        0 <= i <= s.len(),
        forall|j: int| 0 <= j < i ==> !p(#[trigger] s[j]),
        i < s.len() ==> p(s[i]),
    ensures
        first_where(s, p) == i,
    decreases i,
{
    if i > 0 {
        let rest = s.skip(1);
        assert(!p(s[0]));
        assert forall|j: int| 0 <= j < i - 1 implies !p(#[trigger] rest[j]) by {
            assert(rest[j] == s[j + 1]);
        }
        lemma_first_where_is(rest, p, i - 1);
    }
}

/// The first match has no match before it, and is a match if it is within `s`.
pub proof fn lemma_first_where_bounds<A>(s: Seq<A>, p: spec_fn(A) -> bool)
    ensures
        0 <= first_where(s, p) <= s.len(),
        forall|j: int| 0 <= j < first_where(s, p) ==> !p(#[trigger] s[j]),
        first_where(s, p) < s.len() ==> p(s[first_where(s, p)]),
    decreases s.len(),
{
    if !(s.len() == 0 || p(s[0])) {
        let rest = s.skip(1);
        lemma_first_where_bounds(rest, p);
        assert forall|j: int| 0 <= j < first_where(s, p) implies !p(#[trigger] s[j]) by {
            if j > 0 {
                assert(s[j] == rest[j - 1]);
            }
        }
        if first_where(s, p) < s.len() {
            assert(s[first_where(s, p)] == rest[first_where(rest, p)]);
        }
    }
}

/// Keeping from one more element.
pub proof fn lemma_kept_next<A>(s: Seq<A>, p: spec_fn(A) -> bool, i: int)
    requires
        0 <= i < s.len(),
    ensures
        kept(s.take(i + 1), p) == if p(s[i]) {
            kept(s.take(i), p).push(s[i])
        } else {
            kept(s.take(i), p)
        },
{
    assert(s.take(i + 1).drop_last() =~= s.take(i));
}

/// Every kept element is a match, and comes from `s`.
pub proof fn lemma_kept_members<A>(s: Seq<A>, p: spec_fn(A) -> bool)
    ensures
        kept(s, p).len() <= s.len(),
        forall|k: int| 0 <= k < kept(s, p).len() ==> p(#[trigger] kept(s, p)[k]) && s.contains(kept(s, p)[k]),
    decreases s.len(),
{
    if s.len() > 0 {
        let head = s.drop_last();
        lemma_kept_members(head, p);
        assert forall|k: int| 0 <= k < kept(s, p).len() implies p(#[trigger] kept(s, p)[k])
            && s.contains(kept(s, p)[k]) by {
            if k < kept(head, p).len() {
                let x = kept(head, p)[k];
                assert(head.contains(x));
                let j = choose|j: int| 0 <= j < head.len() && head[j] == x;
                assert(s[j] == x);
            } else {
                assert(s[s.len() - 1] == s.last());
            }
        }
    }
}


/// A sequence with a match keeps at least one element.
pub proof fn lemma_kept_has<A>(s: Seq<A>, p: spec_fn(A) -> bool, i: int)
    requires
        0 <= i < s.len(),
        p(s[i]),
    ensures
        kept(s, p).len() >= 1,
    decreases s.len(),
{
    if i < s.len() - 1 {
        assert(s.drop_last()[i] == s[i]);
        lemma_kept_has(s.drop_last(), p, i);
    }
}

/// A sequence without a match keeps nothing.
pub proof fn lemma_kept_none<A>(s: Seq<A>, p: spec_fn(A) -> bool)
    requires
        forall|i: int| 0 <= i < s.len() ==> !p(#[trigger] s[i]),
    ensures
        kept(s, p).len() == 0,
    decreases s.len(),
{
    if s.len() > 0 {
        assert forall|i: int| 0 <= i < s.drop_last().len() implies !p(#[trigger] s.drop_last()[i]) by {
            assert(s.drop_last()[i] == s[i]);
        }
        lemma_kept_none(s.drop_last(), p);
        assert(!p(s[s.len() - 1]));
    }
}


/// Every match of `s` is kept.
pub proof fn lemma_kept_holds<A>(s: Seq<A>, p: spec_fn(A) -> bool, x: A)
    requires
        s.contains(x),
        p(x),
    ensures
        kept(s, p).contains(x),
    decreases s.len(),
{
    let i = choose|i: int| 0 <= i < s.len() && s[i] == x;
    let head = s.drop_last();
    if i < s.len() - 1 {
        assert(head[i] == x);
        lemma_kept_holds(head, p, x);
        let k = choose|k: int| 0 <= k < kept(head, p).len() && kept(head, p)[k] == x;
        assert(kept(s, p)[k] == x);
    } else {
        assert(kept(s, p)[kept(s, p).len() - 1] == x);
    }
}

} // verus!
