//! Ordering infrastructure: a total-order trait, a verified insertion sort,
//! binary search over sorted integer sequences, and deduplication.

use vstd::prelude::*;
use vstd::seq_lib::lemma_multiset_commutative;

verus! {

/// A total (but not necessarily antisymmetric) order on copyable values.
pub trait TotalOrder: Sized + Copy {
    /// The order relation, as a specification.
    spec fn leq(self, other: Self) -> bool;

    /// Any two values are comparable.
    proof fn lemma_connected(a: Self, b: Self)
        ensures
            a.leq(b) || b.leq(a),
    ;

    /// The relation is transitive.
    proof fn lemma_transitive(a: Self, b: Self, c: Self)
        requires
            a.leq(b),
            b.leq(c),
        ensures
            a.leq(c),
    ;

    /// Executable comparison agreeing with `leq`.
    fn le(&self, other: &Self) -> (r: bool)
        ensures
            r == self.leq(*other),
    ;
}

/// Every element is `leq` every later element.
pub open spec fn sorted<T: TotalOrder>(s: Seq<T>) -> bool {
    forall|i: int, j: int| 0 <= i < j < s.len() ==> #[trigger] s[i].leq(s[j])
}

/// Strictly ascending: sorted with no repeated values.
pub open spec fn strictly_increasing<T: TotalOrder>(s: Seq<T>) -> bool {
    forall|i: int, j: int| 0 <= i < j < s.len() ==> #[trigger] s[i].leq(s[j]) && s[i] != s[j]
}

/// `x` inserted into `s` after every leading element that is `leq` it.
/// When `s` is sorted this is sorted insertion, placing `x` after its
/// equals (the insertion is stable).
pub open spec fn insert_sorted<T: TotalOrder>(s: Seq<T>, x: T) -> Seq<T>
    decreases s.len(),
{
    if s.len() == 0 {
        seq![x]
    } else if s[0].leq(x) {
        seq![s[0]] + insert_sorted(s.drop_first(), x)
    } else {
        seq![x] + s
    }
}

/// The stable insertion sort of `s`, as a specification.
pub open spec fn sort_seq<T: TotalOrder>(s: Seq<T>) -> Seq<T>
    decreases s.len(),
{
    if s.len() == 0 {
        Seq::empty()
    } else {
        insert_sorted(sort_seq(s.drop_last()), s.last())
    }
}

pub proof fn lemma_insert_sorted_ensures<T: TotalOrder>(s: Seq<T>, x: T)
    requires
        sorted(s),
    ensures
        sorted(insert_sorted(s, x)),
        insert_sorted(s, x).to_multiset() == s.to_multiset().insert(x),
        insert_sorted(s, x).len() == s.len() + 1,
    decreases s.len(),
{
    broadcast use vstd::seq_lib::group_to_multiset_ensures;

    if s.len() == 0 {
        assert(seq![x] =~= Seq::empty().push(x));
        assert(seq![x].to_multiset() == s.to_multiset().insert(x));
    } else if s[0].leq(x) {
        let tail = s.drop_first();
        assert(sorted(tail)) by {
            assert forall|i: int, j: int| 0 <= i < j < tail.len() implies #[trigger] tail[i].leq(
                tail[j],
            ) by {
                assert(s[i + 1].leq(s[j + 1]));
            }
        }
        lemma_insert_sorted_ensures(tail, x);
        let rest = insert_sorted(tail, x);
        // s[0] is leq every element of rest.
        assert forall|k: int| 0 <= k < rest.len() implies s[0].leq(#[trigger] rest[k]) by {
            assert(rest.to_multiset().contains(rest[k]));
            if rest[k] == x {
                assert(s[0].leq(x));
            } else {
                assert(tail.to_multiset().contains(rest[k]));
                let i = choose|i: int| 0 <= i < tail.len() && #[trigger] tail[i] == rest[k];
                assert(s[0].leq(s[i + 1]));
            }
        }
        let whole = seq![s[0]] + rest;
        assert(sorted(whole)) by {
            assert forall|i: int, j: int| 0 <= i < j < whole.len() implies #[trigger] whole[i].leq(
                whole[j],
            ) by {
                if i == 0 {
                    assert(whole[j] == rest[j - 1]);
                    assert(s[0].leq(rest[j - 1]));
                } else {
                    assert(rest[i - 1].leq(rest[j - 1]));
                }
            }
        }
        lemma_multiset_commutative(seq![s[0]], rest);
        assert(s =~= seq![s[0]] + tail);
        lemma_multiset_commutative(seq![s[0]], tail);
        assert(seq![s[0]].to_multiset().add(tail.to_multiset().insert(x))
            == seq![s[0]].to_multiset().add(tail.to_multiset()).insert(x)) by {
            broadcast use vstd::multiset::group_multiset_axioms;

            assert(seq![s[0]].to_multiset().add(tail.to_multiset().insert(x))
                =~= seq![s[0]].to_multiset().add(tail.to_multiset()).insert(x));
        }
    } else {
        T::lemma_connected(s[0], x);
        assert(x.leq(s[0]));
        let whole = seq![x] + s;
        assert forall|k: int| 0 <= k < s.len() implies x.leq(#[trigger] s[k]) by {
            if k > 0 {
                assert(s[0].leq(s[k]));
                T::lemma_transitive(x, s[0], s[k]);
            }
        }
        assert(sorted(whole)) by {
            assert forall|i: int, j: int| 0 <= i < j < whole.len() implies #[trigger] whole[i].leq(
                whole[j],
            ) by {
                if i > 0 {
                    assert(s[i - 1].leq(s[j - 1]));
                } else {
                    assert(whole[j] == s[j - 1]);
                    assert(x.leq(s[j - 1]));
                }
            }
        }
        lemma_multiset_commutative(seq![x], s);
        assert(seq![x].to_multiset().add(s.to_multiset()) =~= s.to_multiset().insert(x)) by {
            broadcast use vstd::multiset::group_multiset_axioms;

            assert(seq![x] =~= Seq::empty().push(x));
        }
    }
}

pub proof fn lemma_sort_seq_ensures<T: TotalOrder>(s: Seq<T>)
    ensures
        sorted(sort_seq(s)),
        sort_seq(s).to_multiset() == s.to_multiset(),
        sort_seq(s).len() == s.len(),
    decreases s.len(),
{
    broadcast use vstd::seq_lib::group_to_multiset_ensures;

    if s.len() == 0 {
    } else {
        let head = s.drop_last();
        lemma_sort_seq_ensures::<T>(head);
        lemma_insert_sorted_ensures(sort_seq(head), s.last());
        assert(s =~= head.push(s.last()));
    }
}

/// Sorted sequences contain the same elements as their sources.
pub proof fn lemma_sort_seq_contains<T: TotalOrder>(s: Seq<T>, x: T)
    ensures
        sort_seq(s).contains(x) == s.contains(x),
{
    broadcast use vstd::seq_lib::group_to_multiset_ensures;

    lemma_sort_seq_ensures::<T>(s);
    if s.contains(x) {
        assert(s.to_multiset().contains(x));
        assert(sort_seq(s).to_multiset().contains(x));
    }
    if sort_seq(s).contains(x) {
        assert(sort_seq(s).to_multiset().contains(x));
        assert(s.to_multiset().contains(x));
    }
}

fn insert_in_sorted<T: TotalOrder>(v: &mut Vec<T>, x: T)
    ensures
        final(v)@ == insert_sorted(old(v)@, x),
{
    let mut idx: usize = 0;
    while idx < v.len() && v[idx].le(&x)
        invariant
            idx <= v@.len(),
            forall|k: int| 0 <= k < idx ==> #[trigger] v@[k].leq(x),
            v@ == old(v)@,
        decreases v@.len() - idx,
    {
        idx = idx + 1;
    }
    proof {
        lemma_insert_sorted_at(v@, x, idx as int);
    }
    v.insert(idx, x);
}

proof fn lemma_insert_sorted_at<T: TotalOrder>(s: Seq<T>, x: T, i: int)
    requires
        0 <= i <= s.len(),
        forall|k: int| 0 <= k < i ==> #[trigger] s[k].leq(x),
        i < s.len() ==> !s[i].leq(x),
    ensures
        insert_sorted(s, x) =~= s.take(i) + seq![x] + s.skip(i),
    decreases i,
{
    if i == 0 {
        assert(insert_sorted(s, x) =~= s.take(0) + seq![x] + s.skip(0));
    } else {
        let tail = s.drop_first();
        assert(s[0].leq(x));
        assert forall|k: int| 0 <= k < i - 1 implies #[trigger] tail[k].leq(x) by {
            assert(s[k + 1].leq(x));
        }
        lemma_insert_sorted_at(tail, x, i - 1);
        assert(seq![s[0]] + (tail.take(i - 1) + seq![x] + tail.skip(i - 1)) =~= s.take(i) + seq![x]
            + s.skip(i));
    }
}

/// Sorts the vector by the total order, stably.
pub fn sort_vec<T: TotalOrder>(v: &mut Vec<T>)
    ensures
        final(v)@ == sort_seq(old(v)@),
        sorted(final(v)@),
        final(v)@.to_multiset() == old(v)@.to_multiset(),
        final(v)@.len() == old(v)@.len(),
{
    let mut out: Vec<T> = Vec::new();
    let n = v.len();
    let mut i: usize = 0;
    while i < n
        invariant
            n == v@.len(),
            i <= n,
            v@ == old(v)@,
            out@ == sort_seq(v@.take(i as int)),
        decreases n - i,
    {
        let x = v[i];
        proof {
            assert(v@.take(i + 1).drop_last() =~= v@.take(i as int));
            assert(v@.take(i + 1).last() == v@[i as int]);
        }
        insert_in_sorted(&mut out, x);
        i = i + 1;
    }
    proof {
        assert(v@.take(n as int) =~= v@);
        lemma_sort_seq_ensures::<T>(old(v)@);
    }
    *v = out;
}

impl TotalOrder for u32 {
    open spec fn leq(self, other: Self) -> bool {
        self <= other
    }

    proof fn lemma_connected(a: Self, b: Self) {
    }

    proof fn lemma_transitive(a: Self, b: Self, c: Self) {
    }

    fn le(&self, other: &Self) -> (r: bool) {
        *self <= *other
    }
}

impl TotalOrder for usize {
    open spec fn leq(self, other: Self) -> bool {
        self <= other
    }

    proof fn lemma_connected(a: Self, b: Self) {
    }

    proof fn lemma_transitive(a: Self, b: Self, c: Self) {
    }

    fn le(&self, other: &Self) -> (r: bool) {
        *self <= *other
    }
}

/// Removes adjacent duplicates from a sorted vector of `u32`.
pub fn dedup_sorted_u32(v: &Vec<u32>) -> (r: Vec<u32>)
    requires
        sorted(v@),
    ensures
        strictly_increasing(r@),
        forall|x: u32| r@.contains(x) == v@.contains(x),
{
    let mut r: Vec<u32> = Vec::new();
    let mut i: usize = 0;
    while i < v.len()
        invariant
            i <= v@.len(),
            sorted(v@),
            strictly_increasing(r@),
            forall|x: u32| r@.contains(x) == v@.take(i as int).contains(x),
            i == 0 ==> r@.len() == 0,
            i > 0 ==> r@.len() > 0 && r@.last() == v@[i - 1],
        decreases v@.len() - i,
    {
        let x = v[i];
        let ghost r0 = r@;
        if r.len() == 0 || r[r.len() - 1] != x {
            proof {
                if r0.len() > 0 {
                    let last = r0.last();
                    assert(v@[i - 1].leq(v@[i as int]));
                    assert forall|k: int| 0 <= k < r0.len() implies #[trigger] r0[k] <= x && r0[k]
                        != x by {
                        if k < r0.len() - 1 {
                            assert(r0[k].leq(last) && r0[k] != last);
                        }
                    }
                }
            }
            r.push(x);
        }
        proof {
            assert(r@ == r0 || r@ == r0.push(x));
            assert(r@.last() == x || (r@ == r0 && r0.last() == x));
            assert(v@.take(i + 1) =~= v@.take(i as int).push(x));
            assert forall|y: u32| v@.take(i + 1).contains(y) implies r@.contains(y) by {
                if y == x {
                    assert(r@[r@.len() - 1] == x);
                } else {
                    let k = choose|k: int|
                        0 <= k < i + 1 && #[trigger] v@.take(i + 1)[k] == y;
                    assert(v@.take(i + 1)[i as int] == x);
                    assert(k != i);
                    assert(v@.take(i as int)[k] == y);
                    assert(r0.contains(y));
                    let k0 = choose|k0: int| 0 <= k0 < r0.len() && #[trigger] r0[k0] == y;
                    assert(r@[k0] == y);
                }
            }
            assert forall|y: u32| r@.contains(y) implies v@.take(i + 1).contains(y) by {
                let k = choose|k: int| 0 <= k < r@.len() && #[trigger] r@[k] == y;
                if k < r0.len() {
                    assert(r0[k] == y);
                    assert(r0.contains(y));
                    assert(v@.take(i as int).contains(y));
                    let m = choose|m: int|
                        0 <= m < i && #[trigger] v@.take(i as int)[m] == y;
                    assert(v@.take(i + 1)[m] == y);
                } else {
                    assert(y == x);
                    assert(v@.take(i + 1)[i as int] == x);
                }
            }
        }
        i = i + 1;
    }
    proof {
        assert(v@.take(v@.len() as int) =~= v@);
    }
    r
}

/// Removes adjacent duplicates from a sorted vector of `usize`.
pub fn dedup_sorted_usize(v: &Vec<usize>) -> (r: Vec<usize>)
    requires
        sorted(v@),
    ensures
        strictly_increasing(r@),
        forall|x: usize| r@.contains(x) == v@.contains(x),
{
    let mut r: Vec<usize> = Vec::new();
    let mut i: usize = 0;
    while i < v.len()
        invariant
            i <= v@.len(),
            sorted(v@),
            strictly_increasing(r@),
            forall|x: usize| r@.contains(x) == v@.take(i as int).contains(x),
            i == 0 ==> r@.len() == 0,
            i > 0 ==> r@.len() > 0 && r@.last() == v@[i - 1],
        decreases v@.len() - i,
    {
        let x = v[i];
        let ghost r0 = r@;
        if r.len() == 0 || r[r.len() - 1] != x {
            proof {
                if r0.len() > 0 {
                    let last = r0.last();
                    assert(v@[i - 1].leq(v@[i as int]));
                    assert forall|k: int| 0 <= k < r0.len() implies #[trigger] r0[k] <= x && r0[k]
                        != x by {
                        if k < r0.len() - 1 {
                            assert(r0[k].leq(last) && r0[k] != last);
                        }
                    }
                }
            }
            r.push(x);
        }
        proof {
            assert(r@ == r0 || r@ == r0.push(x));
            assert(r@.last() == x || (r@ == r0 && r0.last() == x));
            assert(v@.take(i + 1) =~= v@.take(i as int).push(x));
            assert forall|y: usize| v@.take(i + 1).contains(y) implies r@.contains(y) by {
                if y == x {
                    assert(r@[r@.len() - 1] == x);
                } else {
                    let k = choose|k: int|
                        0 <= k < i + 1 && #[trigger] v@.take(i + 1)[k] == y;
                    assert(v@.take(i + 1)[i as int] == x);
                    assert(k != i);
                    assert(v@.take(i as int)[k] == y);
                    assert(r0.contains(y));
                    let k0 = choose|k0: int| 0 <= k0 < r0.len() && #[trigger] r0[k0] == y;
                    assert(r@[k0] == y);
                }
            }
            assert forall|y: usize| r@.contains(y) implies v@.take(i + 1).contains(y) by {
                let k = choose|k: int| 0 <= k < r@.len() && #[trigger] r@[k] == y;
                if k < r0.len() {
                    assert(r0[k] == y);
                    assert(r0.contains(y));
                    assert(v@.take(i as int).contains(y));
                    let m = choose|m: int|
                        0 <= m < i && #[trigger] v@.take(i as int)[m] == y;
                    assert(v@.take(i + 1)[m] == y);
                } else {
                    assert(y == x);
                    assert(v@.take(i + 1)[i as int] == x);
                }
            }
        }
        i = i + 1;
    }
    proof {
        assert(v@.take(v@.len() as int) =~= v@);
    }
    r
}

/// Binary search over a strictly increasing vector of `u32`.
/// Returns whether `x` is present and the sorted insertion position.
pub fn binary_search_u32(v: &Vec<u32>, x: u32) -> (r: (bool, usize))
    requires
        strictly_increasing(v@),
    ensures
        r.0 == v@.contains(x),
        r.1 <= v@.len(),
        forall|k: int| 0 <= k < r.1 ==> v@[k] < x,
        forall|k: int| r.1 <= k < v@.len() ==> v@[k] >= x,
        r.0 ==> r.1 < v@.len() && v@[r.1 as int] == x,
{
    let mut lo: usize = 0;
    let mut hi: usize = v.len();
    while lo < hi
        invariant
            lo <= hi <= v@.len(),
            strictly_increasing(v@),
            forall|k: int| 0 <= k < lo ==> v@[k] < x,
            forall|k: int| hi <= k < v@.len() ==> v@[k] >= x,
        decreases hi - lo,
    {
        let mid = lo + (hi - lo) / 2;
        if v[mid] < x {
            proof {
                assert forall|k: int| 0 <= k <= mid implies v@[k] < x by {
                    if k < mid {
                        assert(v@[k].leq(v@[mid as int]) && v@[k] != v@[mid as int]);
                    }
                }
            }
            lo = mid + 1;
        } else {
            proof {
                assert forall|k: int| mid <= k < v@.len() implies v@[k] >= x by {
                    if k > mid {
                        assert(v@[mid as int].leq(v@[k]) && v@[mid as int] != v@[k]);
                    }
                }
            }
            hi = mid;
        }
    }
    let found = lo < v.len() && v[lo] == x;
    proof {
        if v@.contains(x) {
            let k = choose|k: int| 0 <= k < v@.len() && #[trigger] v@[k] == x;
            assert(k >= lo);
            if k > lo {
                assert(0 <= lo < k < v@.len());
                assert(v@[lo as int].leq(v@[k]));
                assert(v@[lo as int] != v@[k]);
            }
        }
    }
    (found, lo)
}

/// Binary search over a strictly increasing vector of `usize`.
pub fn binary_search_usize(v: &Vec<usize>, x: usize) -> (r: (bool, usize))
    requires
        strictly_increasing(v@),
    ensures
        r.0 == v@.contains(x),
        r.1 <= v@.len(),
        forall|k: int| 0 <= k < r.1 ==> v@[k] < x,
        forall|k: int| r.1 <= k < v@.len() ==> v@[k] >= x,
        r.0 ==> r.1 < v@.len() && v@[r.1 as int] == x,
{
    let mut lo: usize = 0;
    let mut hi: usize = v.len();
    while lo < hi
        invariant
            lo <= hi <= v@.len(),
            strictly_increasing(v@),
            forall|k: int| 0 <= k < lo ==> v@[k] < x,
            forall|k: int| hi <= k < v@.len() ==> v@[k] >= x,
        decreases hi - lo,
    {
        let mid = lo + (hi - lo) / 2;
        if v[mid] < x {
            proof {
                assert forall|k: int| 0 <= k <= mid implies v@[k] < x by {
                    if k < mid {
                        assert(v@[k].leq(v@[mid as int]) && v@[k] != v@[mid as int]);
                    }
                }
            }
            lo = mid + 1;
        } else {
            proof {
                assert forall|k: int| mid <= k < v@.len() implies v@[k] >= x by {
                    if k > mid {
                        assert(v@[mid as int].leq(v@[k]) && v@[mid as int] != v@[k]);
                    }
                }
            }
            hi = mid;
        }
    }
    let found = lo < v.len() && v[lo] == x;
    proof {
        if v@.contains(x) {
            let k = choose|k: int| 0 <= k < v@.len() && #[trigger] v@[k] == x;
            assert(k >= lo);
            if k > lo {
                assert(0 <= lo < k < v@.len());
                assert(v@[lo as int].leq(v@[k]));
                assert(v@[lo as int] != v@[k]);
            }
        }
    }
    (found, lo)
}

} // verus!
