//! Sequences: where something stands in them, and facts that several modules use.

use vstd::prelude::*;

verus! {

/// Where `x` first stands in `s`; the length of `s` where it does not.
pub open spec fn position<A>(s: Seq<A>, x: A) -> int
    decreases s.len(),
{
    if s.len() == 0 || s[0] == x {
        0
    } else {
        1 + position(s.skip(1), x)
    }
}

/// What `position` says: everything before it differs, and `x` stands there
/// unless the search ran off the end.
pub proof fn lemma_position<A>(s: Seq<A>, x: A)
    ensures
        0 <= position(s, x) <= s.len(),
        forall|j: int| 0 <= j < position(s, x) ==> s[j] != x,
        position(s, x) < s.len() ==> s[position(s, x)] == x,
        position(s, x) < s.len() <==> s.contains(x),
    decreases s.len(),
{
    if s.len() > 0 && s[0] != x {
        let rest = s.skip(1);
        lemma_position(rest, x);
        let p = position(s, x);
        assert forall|j: int| 0 <= j < p implies s[j] != x by {
            if j > 0 {
                assert(rest[j - 1] == s[j]);
            }
        }
        if p < s.len() {
            assert(rest[p - 1] == s[p]);
        } else if s.contains(x) {
            let j = choose|j: int| 0 <= j < s.len() && s[j] == x;
            assert(rest[j - 1] == x);
        }
    }
}

/// The first place where `x` stands is its `position`.
pub proof fn lemma_position_is<A>(s: Seq<A>, x: A, i: int)
    requires
        0 <= i <= s.len(),
        i < s.len() ==> s[i] == x,
        forall|j: int| 0 <= j < i ==> s[j] != x,
    ensures
        position(s, x) == i,
{
    lemma_position(s, x);
    let p = position(s, x);
    if i < p {
        assert(s[i] != x);
    }
}

/// The last element is a member, and so is every member of the rest.
pub(crate) proof fn lemma_members_last<A>(s: Seq<A>)
    requires
        s.len() > 0,
    ensures
        forall|x: A| #[trigger] s.contains(x) <==> s.drop_last().contains(x) || x == s.last(),
{
    assert forall|x: A| #[trigger] s.contains(x) <==> s.drop_last().contains(x) || x == s.last() by {
        if s.contains(x) {
            let k = choose|k: int| 0 <= k < s.len() && s[k] == x;
            if k < s.len() - 1 {
                assert(s.drop_last()[k] == x);
            }
        }
        if s.drop_last().contains(x) {
            let k = choose|k: int| 0 <= k < s.drop_last().len() && s.drop_last()[k] == x;
            assert(s[k] == x);
        }
        if x == s.last() {
            assert(s[s.len() - 1] == x);
        }
    }
}

/// What a filter keeps.
pub(crate) proof fn lemma_filter_members<A>(s: Seq<A>, keep: spec_fn(A) -> bool)
    ensures
        forall|x: A| #[trigger] s.filter(keep).contains(x) <==> s.contains(x) && keep(x),
    decreases s.len(),
{
    reveal(Seq::filter);
    if s.len() > 0 {
        let less = s.drop_last().filter(keep);
        lemma_filter_members(s.drop_last(), keep);
        lemma_members_last(s);
        if keep(s.last()) {
            lemma_members_last(less.push(s.last()));
            assert(less.push(s.last()).drop_last() =~= less);
        }
    }
}

/// Whether `at` are places in a sequence of `n` elements, from left to right.
pub open spec fn are_places(at: Seq<int>, n: int) -> bool {
    &&& forall|k: int| 0 <= k < at.len() ==> 0 <= #[trigger] at[k] < n
    &&& forall|j: int, k: int| 0 <= j < k < at.len() ==> #[trigger] at[j] < #[trigger] at[k]
}

/// One more place on the right.
pub(crate) proof fn lemma_push_place(at: Seq<int>, n: int)
    requires
        are_places(at, n),
        0 <= n,
    ensures
        are_places(at, n + 1),
        are_places(at.push(n), n + 1),
        forall|i: int| #[trigger] at.push(n).contains(i) <==> at.contains(i) || i == n,
        !at.contains(n),
{
    let more = at.push(n);
    assert(more.drop_last() =~= at);
    lemma_members_last(more);
    assert forall|k: int| 0 <= k < more.len() implies 0 <= #[trigger] more[k] < n + 1 by {
        if k < at.len() {
            assert(0 <= at[k] < n);
        }
    }
    assert forall|j: int, k: int| 0 <= j < k < more.len() implies #[trigger] more[j]
        < #[trigger] more[k] by {
        assert(0 <= at[j] < n);
        if k < at.len() {
            assert(at[j] < at[k]);
        }
    }
}

/// A filter keeps what it is to keep, from left to right.
pub(crate) proof fn lemma_filter_places<A>(s: Seq<A>, keep: spec_fn(A) -> bool) -> (at: Seq<int>)
    ensures
        are_places(at, s.len() as int),
        at.len() == s.filter(keep).len(),
        forall|k: int|
            0 <= k < at.len() ==> s.filter(keep)[k] == s[#[trigger] at[k]] && keep(s[at[k]]),
        forall|i: int| 0 <= i < s.len() ==> (#[trigger] at.contains(i) <==> keep(s[i])),
    decreases s.len(),
{
    reveal(Seq::filter);
    if s.len() == 0 {
        Seq::empty()
    } else {
        let less = s.drop_last();
        let n = less.len() as int;
        let before = lemma_filter_places(less, keep);
        lemma_push_place(before, n);
        let at = if keep(s.last()) {
            before.push(n)
        } else {
            before
        };
        assert forall|k: int| 0 <= k < at.len() implies s.filter(keep)[k] == s[#[trigger] at[k]]
            && keep(s[at[k]]) by {
            if k < before.len() {
                assert(less.filter(keep)[k] == less[before[k]]);
            }
        }
        assert forall|i: int| 0 <= i < s.len() implies (#[trigger] at.contains(i) <==> keep(
            s[i],
        )) by {
            if i < n {
                assert(before.contains(i) <==> keep(less[i]));
            }
        }
        at
    }
}

} // verus!
