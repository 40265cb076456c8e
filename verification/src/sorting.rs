//! Sorting utilities: stable insertion sorts that also release unused capacity.
use std::cmp::Ordering;
use vstd::multiset::Multiset;
use crate::forest::position;
use vstd::prelude::*;
use vstd::std_specs::cmp::OrdSpec;

verus! {

broadcast use vstd::seq_lib::group_to_multiset_ensures;

/// Every answer the comparator `f` may give for `(a, b)` is other than `Greater`.
pub open spec fn never_greater<T, F: Fn(&T, &T) -> Ordering>(f: F, a: T, b: T) -> bool {
    forall|o: Ordering| #[trigger] f.ensures((&a, &b), o) ==> o != Ordering::Greater
}

/// The comparator `f` has answered something other than `Greater` for `(a, b)`.
pub open spec fn answered_le<T, F: Fn(&T, &T) -> Ordering>(f: F, a: T, b: T) -> bool {
    exists|o: Ordering| #[trigger] f.ensures((&a, &b), o) && o != Ordering::Greater
}

/// The comparator can be called on any pair, gives one answer per pair, and for any
/// pair at least one of the two directions never answers `Greater`.
pub open spec fn is_total_comparator<T, F: Fn(&T, &T) -> Ordering>(f: F) -> bool {
    &&& forall|a: &T, b: &T| #[trigger] f.requires((a, b))
    &&& forall|a: &T, b: &T, o1: Ordering, o2: Ordering|
        #[trigger] f.ensures((a, b), o1) && #[trigger] f.ensures((a, b), o2) ==> o1 == o2
    &&& forall|a: T, b: T|
        #[trigger] never_greater(f, a, b) || #[trigger] never_greater(f, b, a)
}

/// Each element of `s` compares, under `f`, not greater than the element that follows it.
pub open spec fn sorted_by_comparator<T, F: Fn(&T, &T) -> Ordering>(s: Seq<T>, f: F) -> bool {
    forall|i: int, j: int| 0 <= i && j == i + 1 && j < s.len() ==> answered_le(f, #[trigger] s[i], #[trigger] s[j])
}

/// The element of `s` at position `k`.
pub open spec fn seq_at<T>(s: Seq<T>, k: usize) -> T {
    s[k as int]
}

/// The element of `s` just before position `k`.
pub open spec fn seq_before<T>(s: Seq<T>, k: usize) -> T {
    s[k as int - 1]
}

/// Whether an ordering answer is `Greater`.
pub fn is_greater(o: Ordering) -> (r: bool)
    ensures
        r == (o == Ordering::Greater),
{
    match o {
        Ordering::Greater => true,
        _ => false,
    }
}

/// Releases the spare capacity of a vector (`Vec::shrink_to`).
#[verifier::external_body]
fn shrink_capacity<T>(v: &mut Vec<T>)
    ensures
        final(v)@ == old(v)@,
{
    v.shrink_to(0);
}

/// Some answer the comparator `f` may give for `(a, b)` is `Greater`.
pub open spec fn comparator_greater<T, F: Fn(&T, &T) -> Ordering>(f: F, a: T, b: T) -> bool {
    !never_greater(f, a, b)
}

/// The stable sort of `s` under the relation `greater`: each element in turn is put after
/// the earlier elements that are not greater than it and before those that are, so elements
/// that are not greater than one another keep their original order.
pub open spec fn stable_sorted<T>(s: Seq<T>, greater: spec_fn(T, T) -> bool) -> Seq<T>
    decreases s.len(),
{
    if s.len() == 0 {
        Seq::empty()
    } else {
        insert_sorted(stable_sorted(s.drop_last(), greater), s.last(), greater)
    }
}

/// An element inserted into a sorted sequence after the elements not greater than it: the
/// greater elements at the end are passed over.
pub open spec fn insert_sorted<T>(sorted: Seq<T>, x: T, greater: spec_fn(T, T) -> bool) -> Seq<T>
    decreases sorted.len(),
{
    if sorted.len() == 0 {
        seq![x]
    } else if greater(sorted.last(), x) {
        insert_sorted(sorted.drop_last(), x, greater).push(sorted.last())
    } else {
        sorted.push(x)
    }
}

/// Inserting after the elements not greater than `x` puts `x` at `k` when the elements from
/// `k` on are greater than it and the one before `k` is not.
pub proof fn lemma_insert_sorted_at<T>(sorted: Seq<T>, x: T, greater: spec_fn(T, T) -> bool, k: int)
    requires
        0 <= k <= sorted.len(),
        forall|j: int| k <= j < sorted.len() ==> greater(#[trigger] sorted[j], x),
        k > 0 ==> !greater(sorted[k - 1], x),
    ensures
        insert_sorted(sorted, x, greater) == sorted.insert(k, x),
    decreases sorted.len(),
{
    if sorted.len() == 0 {
        assert(sorted.insert(k, x) =~= seq![x]);
    } else if k == sorted.len() {
        assert(sorted.insert(k, x) =~= sorted.push(x));
    } else {
        let rest = sorted.drop_last();
        assert forall|j: int| k <= j < rest.len() implies greater(#[trigger] rest[j], x) by {
            assert(rest[j] == sorted[j]);
        }
        if k > 0 {
            assert(rest[k - 1] == sorted[k - 1]);
        }
        assert(greater(sorted[sorted.len() - 1], x));
        lemma_insert_sorted_at(rest, x, greater, k);
        assert(rest.insert(k, x).push(sorted.last()) =~= sorted.insert(k, x));
    }
}

/// Mapping an insertion by `greater` is inserting the mapped element into the mapped
/// sequence by a relation that the map carries `greater` to.
proof fn lemma_insert_sorted_map<A, B>(
    t: Seq<A>,
    x: A,
    f: spec_fn(A) -> B,
    ga: spec_fn(A, A) -> bool,
    gb: spec_fn(B, B) -> bool,
)
    requires
        forall|p: A, q: A| #[trigger] ga(p, q) == gb(f(p), f(q)),
    ensures
        insert_sorted(t, x, ga).map_values(f) == insert_sorted(t.map_values(f), f(x), gb),
    decreases t.len(),
{
    let tm = t.map_values(f);
    if t.len() == 0 {
        assert(seq![x].map_values(f) =~= seq![f(x)]);
    } else {
        assert(tm.last() == f(t.last()));
        assert(tm.drop_last() =~= t.drop_last().map_values(f));
        if ga(t.last(), x) {
            lemma_insert_sorted_map(t.drop_last(), x, f, ga, gb);
            let inner = insert_sorted(t.drop_last(), x, ga);
            assert(inner.push(t.last()).map_values(f) =~= inner.map_values(f).push(f(t.last())));
        } else {
            assert(t.push(x).map_values(f) =~= tm.push(f(x)));
        }
    }
}

/// Mapping a stable sort by `greater` is stably sorting the mapped sequence by a relation
/// that the map carries `greater` to.
pub proof fn lemma_stable_sorted_map<A, B>(
    s: Seq<A>,
    f: spec_fn(A) -> B,
    ga: spec_fn(A, A) -> bool,
    gb: spec_fn(B, B) -> bool,
)
    requires
        forall|p: A, q: A| #[trigger] ga(p, q) == gb(f(p), f(q)),
    ensures
        stable_sorted(s, ga).map_values(f) == stable_sorted(s.map_values(f), gb),
    decreases s.len(),
{
    if s.len() == 0 {
        assert(s.map_values(f) =~= Seq::<B>::empty());
        assert(Seq::<A>::empty().map_values(f) =~= Seq::<B>::empty());
    } else {
        lemma_stable_sorted_map(s.drop_last(), f, ga, gb);
        assert(s.map_values(f).drop_last() =~= s.drop_last().map_values(f));
        assert(s.map_values(f).last() == f(s.last()));
        lemma_insert_sorted_map(stable_sorted(s.drop_last(), ga), s.last(), f, ga, gb);
    }
}

/// The comparator answers `Greater` exactly when `greater` holds.
pub open spec fn answers_greater<T, F: Fn(&T, &T) -> Ordering>(f: F, greater: spec_fn(T, T) -> bool) -> bool {
    forall|a: T, b: T, o: Ordering| #[trigger] f.ensures((&a, &b), o) ==> ((o == Ordering::Greater) == greater(a, b))
}

/// The insertion sort behind `vsort_by` and `vsort`: the result is the stable sort under the
/// relation the comparator's `Greater` answers follow.
pub fn insertion_sort<T, F: Fn(&T, &T) -> Ordering>(v: &mut Vec<T>, f: F, Ghost(greater): Ghost<spec_fn(T, T) -> bool>)
    requires
        is_total_comparator(f),
        answers_greater(f, greater),
    ensures
        sorted_by_comparator(final(v)@, f),
        final(v)@.to_multiset() == old(v)@.to_multiset(),
        final(v)@ == stable_sorted(old(v)@, greater),
{
    let ghost orig = v@;
    let ghost mut n: int = 0;
    let mut out: Vec<T> = Vec::new();
    proof {
        assert(orig.skip(0) =~= orig);
        assert(orig.take(0) =~= Seq::<T>::empty());
    }
    while v.len() > 0
        invariant
            is_total_comparator(f),
            answers_greater(f, greater),
            sorted_by_comparator(out@, f),
            out@.to_multiset().add(v@.to_multiset()) == orig.to_multiset(),
            0 <= n <= orig.len(),
            v@ == orig.skip(n),
            out@ == stable_sorted(orig.take(n), greater),
        decreases v.len(),
    {
        let x = v.remove(0);
        let mut k = out.len();
        let mut greater_seen = false;
        loop
            invariant_except_break
                is_total_comparator(f),
                answers_greater(f, greater),
                k <= out.len(),
                greater_seen ==> k < out.len() && never_greater(f, x, seq_at(out@, k)),
                !greater_seen ==> k == out.len(),
                forall|j: int| k <= j < out@.len() ==> greater(#[trigger] out@[j], x),
            ensures
                is_total_comparator(f),
                answers_greater(f, greater),
                k <= out.len(),
                greater_seen ==> k < out.len() && never_greater(f, x, seq_at(out@, k)),
                !greater_seen ==> k == out.len(),
                k > 0 ==> answered_le(f, seq_before(out@, k), x),
                forall|j: int| k <= j < out@.len() ==> greater(#[trigger] out@[j], x),
                k > 0 ==> !greater(seq_before(out@, k), x),
            decreases k,
        {
            if k == 0 {
                break;
            }
            let o = f(&out[k - 1], &x);
            if !is_greater(o) {
                break;
            }
            assert(!never_greater(f, seq_before(out@, k), x));
            k = k - 1;
            greater_seen = true;
        }
        let ghost before = out@;
        let ghost kk = position(k);
        if k < out.len() {
            // witness the order of the new element against its successor
            let o = f(&x, &out[k]);
            assert(answered_le(f, x, seq_at(before, k)));
        }
        out.insert(k, x);
        proof {
            assert forall|i: int, j: int|
                0 <= i && j == i + 1 && j < out@.len() implies answered_le(f, #[trigger] out@[i], #[trigger] out@[j])
            by {
                if j < k {
                    assert(answered_le(f, before[i], before[i + 1]));
                } else if j == k {
                } else if i == k {
                } else {
                    assert(answered_le(f, before[i - 1], before[i]));
                }
            }
            assert(out@.to_multiset() == before.to_multiset().insert(x));
            if kk > 0 {
                assert(seq_before(before, k) == before[kk - 1]);
            }
            lemma_insert_sorted_at(before, x, greater, kk);
            assert(x == orig[n]);
            assert(orig.take(n + 1).drop_last() =~= orig.take(n));
            assert(orig.take(n + 1).last() == x);
            assert(v@ =~= orig.skip(n + 1));
            n = n + 1;
        }
    }
    proof {
        assert(v@ =~= Seq::<T>::empty());
        assert(v@.to_multiset() =~= Multiset::empty());
        assert(orig.take(n) =~= orig);
    }
    *v = out;
    shrink_capacity(v);
}

/// Sorts a vector with a comparator, keeping equal elements in their original order,
/// then trims the vector capacity to its length.
pub fn vsort_by<T, F: Fn(&T, &T) -> Ordering>(v: &mut Vec<T>, f: F)
    requires
        is_total_comparator(f),
    ensures
        sorted_by_comparator(final(v)@, f),
        final(v)@.to_multiset() == old(v)@.to_multiset(),
        final(v)@ == stable_sorted(old(v)@, |a: T, b: T| comparator_greater(f, a, b)),
{
    let ghost greater = |a: T, b: T| comparator_greater(f, a, b);
    proof {
        assert forall|a: T, b: T, o: Ordering| #[trigger] f.ensures((&a, &b), o) implies ((o == Ordering::Greater) == greater(a, b)) by {
            if !(o == Ordering::Greater) && greater(a, b) {
                let o2 = choose|o2: Ordering| f.ensures((&a, &b), o2) && o2 == Ordering::Greater;
                assert(f.ensures((&a, &b), o2));
            }
        }
    }
    insertion_sort(v, f, Ghost(greater));
}

/// The order that `Ord::cmp` gives `T` is known to Verus and total.
pub open spec fn ord_is_total<T: Ord>() -> bool {
    &&& T::obeys_cmp_spec()
    &&& forall|a: T, b: T|
        #[trigger] a.cmp_spec(&b) != Ordering::Greater || #[trigger] b.cmp_spec(&a) != Ordering::Greater
}

/// Sorts a vector in ascending order, keeping equal elements in their original order,
/// then trims the vector capacity to its length.
pub fn vsort<T: Ord>(v: &mut Vec<T>)
    requires
        ord_is_total::<T>(),
    ensures
        forall|i: int, j: int|
            0 <= i && j == i + 1 && j < final(v)@.len() ==> #[trigger] final(v)@[i].cmp_spec(
                &#[trigger] final(v)@[j],
            ) != Ordering::Greater,
        final(v)@.to_multiset() == old(v)@.to_multiset(),
        final(v)@ == stable_sorted(old(v)@, |a: T, b: T| a.cmp_spec(&b) == Ordering::Greater),
{
    let f = |a: &T, b: &T| -> (r: Ordering)
        requires
            T::obeys_cmp_spec(),
        ensures
            r == a.cmp_spec(b),
        { a.cmp(b) };
    proof {
        assert forall|a: T, b: T| #[trigger] never_greater(f, a, b) || #[trigger] never_greater(f, b, a) by {
            if a.cmp_spec(&b) != Ordering::Greater {
                assert(never_greater(f, a, b));
            } else {
                assert(never_greater(f, b, a));
            }
        }
    }
    let ghost greater = |a: T, b: T| a.cmp_spec(&b) == Ordering::Greater;
    insertion_sort(v, f, Ghost(greater));
    proof {
        assert forall|i: int, j: int|
            0 <= i && j == i + 1 && j < v@.len() implies #[trigger] v@[i].cmp_spec(&#[trigger] v@[j]) != Ordering::Greater by {
            assert(answered_le(f, v@[i], v@[j]));
        }
    }
}

/// A sequence whose neighbours are ordered by a transitive relation is sorted by it.
pub proof fn lemma_adjacent_to_sorted<T>(s: Seq<T>, le: spec_fn(T, T) -> bool)
    requires
        vstd::relations::transitive(le),
        forall|i: int, j: int| 0 <= i && j == i + 1 && j < s.len() ==> #[trigger] le(s[i], s[j]),
    ensures
        vstd::relations::sorted_by(s, le),
    decreases s.len(),
{
    if s.len() > 1 {
        let t = s.drop_last();
        assert forall|i: int, j: int| 0 <= i && j == i + 1 && j < t.len() implies #[trigger] le(t[i], t[j]) by {
            assert(le(s[i], s[j]));
        }
        lemma_adjacent_to_sorted(t, le);
        assert forall|i: int, j: int| 0 <= i < j < s.len() implies #[trigger] le(s[i], s[j]) by {
            if j < s.len() - 1 {
                assert(le(t[i], t[j]));
            } else if i < j - 1 {
                assert(le(t[i], t[j - 1]));
                assert(le(s[j - 1], s[j]));
            } else {
                assert(le(s[j - 1], s[j]));
            }
        }
    }
}


/// Mapping two sequences that hold the same elements gives sequences that hold the same
/// elements.
pub proof fn lemma_map_multiset<A, B>(s1: Seq<A>, s2: Seq<A>, f: spec_fn(A) -> B)
    requires
        s1.to_multiset() == s2.to_multiset(),
    ensures
        s1.map_values(f).to_multiset() == s2.map_values(f).to_multiset(),
    decreases s1.len(),
{
    broadcast use vstd::seq_lib::group_to_multiset_ensures;

    if s1.len() == 0 {
        assert(s2.to_multiset().len() == 0);
        assert(s2.len() == 0);
        assert(s1.map_values(f) =~= Seq::<B>::empty());
        assert(s2.map_values(f) =~= Seq::<B>::empty());
    } else {
        let x = s1.last();
        let r1 = s1.drop_last();
        assert(s1 =~= r1.push(x));
        assert(s1.to_multiset().count(x) > 0);
        assert(s2.contains(x));
        let i = choose|i: int| 0 <= i < s2.len() && s2[i] == x;
        let r2 = s2.remove(i);
        vstd::seq_lib::to_multiset_remove(s2, i);
        assert(r1.to_multiset() =~= r2.to_multiset());
        lemma_map_multiset(r1, r2, f);
        assert(s1.map_values(f) =~= r1.map_values(f).push(f(x)));
        assert(s2.map_values(f).remove(i) =~= r2.map_values(f));
        vstd::seq_lib::to_multiset_remove(s2.map_values(f), i);
        assert(s2.map_values(f).to_multiset() =~= r2.map_values(f).to_multiset().insert(f(x)));
    }
}

/// Reordering a sequence whose elements have pairwise distinct keys keeps the keys distinct.
pub proof fn lemma_permuted_distinct<A, K>(s1: Seq<A>, s2: Seq<A>, key: spec_fn(A) -> K)
    requires
        s1.to_multiset() == s2.to_multiset(),
        forall|i: int, j: int| 0 <= i < j < s1.len() ==> key(#[trigger] s1[i]) != key(#[trigger] s1[j]),
    ensures
        forall|i: int, j: int| 0 <= i < j < s2.len() ==> key(#[trigger] s2[i]) != key(#[trigger] s2[j]),
{
    broadcast use vstd::seq_lib::group_to_multiset_ensures;

    assert(s1.no_duplicates()) by {
        assert forall|i: int, j: int| 0 <= i < s1.len() && 0 <= j < s1.len() && i != j implies s1[i] != s1[j] by {
            if i < j {
                assert(key(s1[i]) != key(s1[j]));
            } else {
                assert(key(s1[j]) != key(s1[i]));
            }
        }
    }
    s1.lemma_multiset_has_no_duplicates();
    s2.lemma_multiset_has_no_duplicates_conv();
    assert forall|a: int, b: int| 0 <= a < b < s2.len() implies key(#[trigger] s2[a]) != key(#[trigger] s2[b]) by {
        assert(s2.to_multiset().count(s2[a]) > 0);
        assert(s2.to_multiset().count(s2[b]) > 0);
        assert(s1.contains(s2[a]));
        assert(s1.contains(s2[b]));
        let i = choose|i: int| 0 <= i < s1.len() && s1[i] == s2[a];
        let j = choose|j: int| 0 <= j < s1.len() && s1[j] == s2[b];
        assert(s2[a] != s2[b]);
        if i < j {
            assert(key(s1[i]) != key(s1[j]));
        } else if j < i {
            assert(key(s1[j]) != key(s1[i]));
        }
    }
}

} // verus!
