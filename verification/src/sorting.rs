//! Stable insertion sort, stated over sequences, with its two laws:
//! the result is ordered and holds exactly the elements it was given.
use vstd::prelude::*;

verus! {

broadcast use vstd::seq_lib::group_to_multiset_ensures;

/// One step of a stable insertion sort: `e` goes right after the last
/// element of `s` that is ordered at or before it.
pub open spec fn insert_ordered<A>(s: Seq<A>, e: A, le: spec_fn(A, A) -> bool) -> Seq<A>
    decreases s.len(),
{
    if s.len() == 0 {
        seq![e]
    } else if le(s.last(), e) {
        s.push(e)
    } else {
        insert_ordered(s.drop_last(), e, le).push(s.last())
    }
}

/// `s` sorted stably by `le`: elements that compare equal keep their order.
pub open spec fn stable_sort<A>(s: Seq<A>, le: spec_fn(A, A) -> bool) -> Seq<A>
    decreases s.len(),
{
    if s.len() == 0 {
        s
    } else {
        insert_ordered(stable_sort(s.drop_last(), le), s.last(), le)
    }
}

pub open spec fn total_preorder<A>(le: spec_fn(A, A) -> bool) -> bool {
    &&& forall|a: A, b: A| #[trigger] le(a, b) || le(b, a)
    &&& forall|a: A, b: A, c: A| #[trigger] le(a, b) && #[trigger] le(b, c) ==> le(a, c)
}

pub open spec fn sorted_by<A>(s: Seq<A>, le: spec_fn(A, A) -> bool) -> bool {
    forall|i: int, j: int| 0 <= i < j < s.len() ==> le(#[trigger] s[i], #[trigger] s[j])
}

/// Inserting adds exactly the one element.
pub proof fn lemma_insert_multiset<A>(s: Seq<A>, e: A, le: spec_fn(A, A) -> bool)
    ensures
        insert_ordered(s, e, le).to_multiset() =~= s.to_multiset().insert(e),
        insert_ordered(s, e, le).len() == s.len() + 1,
    decreases s.len(),
{
    if s.len() == 0 {
        assert(s.push(e) =~= seq![e]);
    } else if le(s.last(), e) {
    } else {
        lemma_insert_multiset(s.drop_last(), e, le);
        assert(s.drop_last().push(s.last()) =~= s);
    }
}

/// Inserting into an ordered sequence keeps it ordered.
pub proof fn lemma_insert_sorted<A>(s: Seq<A>, e: A, le: spec_fn(A, A) -> bool)
    requires
        total_preorder(le),
        sorted_by(s, le),
    ensures
        sorted_by(insert_ordered(s, e, le), le),
    decreases s.len(),
{
    if s.len() == 0 {
    } else if le(s.last(), e) {
        let r = s.push(e);
        assert forall|i: int, j: int| 0 <= i < j < r.len() implies le(#[trigger] r[i], #[trigger] r[j]) by {
            if j == s.len() {
                if i < s.len() - 1 {
                    assert(le(s[i], s[s.len() - 1]));
                }
            }
        }
    } else {
        let d = s.drop_last();
        let x = s.last();
        lemma_insert_sorted(d, e, le);
        lemma_insert_multiset(d, e, le);
        let m = insert_ordered(d, e, le);
        assert(le(e, x));
        assert forall|k: int| 0 <= k < m.len() implies le(#[trigger] m[k], x) by {
            assert(m.to_multiset().count(m[k]) > 0);
            if m[k] != e {
                assert(d.to_multiset().count(m[k]) > 0);
                assert(d.contains(m[k]));
                let w = choose|w: int| 0 <= w < d.len() && d[w] == m[k];
                assert(le(s[w], s[s.len() - 1]));
            }
        }
        let r = m.push(x);
        assert forall|i: int, j: int| 0 <= i < j < r.len() implies le(#[trigger] r[i], #[trigger] r[j]) by {
            if j == m.len() {
                assert(le(m[i], x));
            }
        }
    }
}

/// The result of the sort is ordered by `le`.
pub proof fn lemma_stable_sort_sorted<A>(s: Seq<A>, le: spec_fn(A, A) -> bool)
    requires
        total_preorder(le),
    ensures
        sorted_by(stable_sort(s, le), le),
    decreases s.len(),
{
    if s.len() > 0 {
        lemma_stable_sort_sorted(s.drop_last(), le);
        lemma_insert_sorted(stable_sort(s.drop_last(), le), s.last(), le);
    }
}

/// The sort neither loses nor adds elements.
pub proof fn lemma_stable_sort_multiset<A>(s: Seq<A>, le: spec_fn(A, A) -> bool)
    ensures
        stable_sort(s, le).to_multiset() =~= s.to_multiset(),
        stable_sort(s, le).len() == s.len(),
    decreases s.len(),
{
    if s.len() > 0 {
        lemma_stable_sort_multiset(s.drop_last(), le);
        lemma_insert_multiset(stable_sort(s.drop_last(), le), s.last(), le);
        assert(s.drop_last().push(s.last()) =~= s);
    }
}

/// Inserting behind a suffix whose elements all come after `e` leaves that
/// suffix in place.
pub proof fn lemma_insert_split<A>(r: Seq<A>, e: A, le: spec_fn(A, A) -> bool, pos: int)
    requires
        0 <= pos <= r.len(),
        forall|k: int| pos <= k < r.len() ==> !le(#[trigger] r[k], e),
    ensures
        insert_ordered(r, e, le) =~= insert_ordered(r.take(pos), e, le) + r.skip(pos),
    decreases r.len(),
{
    if pos == r.len() {
        assert(r.take(pos) =~= r);
    } else {
        let d = r.drop_last();
        assert(!le(r[r.len() - 1], e));
        lemma_insert_split(d, e, le, pos);
        assert(d.take(pos) =~= r.take(pos));
        assert(d.skip(pos).push(r.last()) =~= r.skip(pos));
    }
}

/// Where the scan for the insertion point stops, the element goes in.
pub proof fn lemma_insert_at<A>(r: Seq<A>, e: A, le: spec_fn(A, A) -> bool, pos: int)
    requires
        0 <= pos <= r.len(),
        forall|k: int| pos <= k < r.len() ==> !le(#[trigger] r[k], e),
        pos == 0 || le(r[pos - 1], e),
    ensures
        insert_ordered(r, e, le) =~= r.insert(pos, e),
{
    lemma_insert_split(r, e, le, pos);
    if pos == 0 {
        assert(r.take(0) =~= Seq::<A>::empty());
    } else {
        assert(r.take(pos).last() == r[pos - 1]);
    }
}

/// Sorting what is already in order changes nothing.
pub proof fn lemma_stable_sort_of_sorted<A>(s: Seq<A>, le: spec_fn(A, A) -> bool)
    requires
        sorted_by(s, le),
    ensures
        stable_sort(s, le) == s,
    decreases s.len(),
{
    if s.len() > 0 {
        let d = s.drop_last();
        assert(sorted_by(d, le)) by {
            assert forall|i: int, j: int| 0 <= i < j < d.len() implies le(#[trigger] d[i], #[trigger] d[j]) by {
                assert(le(s[i], s[j]));
            }
        }
        lemma_stable_sort_of_sorted(d, le);
        if d.len() == 0 {
            assert(seq![s.last()] =~= s);
        } else {
            assert(le(s[d.len() - 1], s[s.len() - 1]));
            assert(d.push(s.last()) =~= s);
        }
    }
}

/// Sorting twice is sorting once.
pub proof fn lemma_stable_sort_idempotent<A>(s: Seq<A>, le: spec_fn(A, A) -> bool)
    requires
        total_preorder(le),
    ensures
        stable_sort(stable_sort(s, le), le) == stable_sort(s, le),
{
    lemma_stable_sort_sorted(s, le);
    lemma_stable_sort_of_sorted(stable_sort(s, le), le);
}

} // verus!
